//! What holds of generation as a whole.

use crate::generation::control::{patterns_error, FlagReads, GenerationEvent};
use crate::generation::sampling::shares::{
    kept_weights, law_some_token_can_be_drawn, nucleus, shares_of, shares_with, trimmed, weighs,
};
use crate::generation::sampling::{
    all_masked, ascending_order, before_in_order, config_error, count_above, count_retained,
    drawable, fill_error, kth_greatest, law_picked_is_unique, picked, plan_for, retained,
    sample_outcome, sampled, sampled_with, top_k_active, unordered_logit, usable, FilterPlan,
    SamplerModel, SamplingArithmetic, SamplingConfig,
};
use crate::generation::{
    breaks_after, breaks_at_end, broke_down, closed_by, completed, decodes, finished,
    generation_error, going_on, natural_end, over_with, plain_outcome, selected, shown,
    stream_outcome, CausalModel, CausalModelLimits, ControlledGenerationOutput, DecodeTrace, Ending,
    GenerationError, TokenGenerationOutput,
};
use crate::logits::{less_64, order_32, single_row, LogitBlock, ONE_64};
use std::ops::ControlFlow;
use vstd::prelude::*;

verus! {

/// A stream without stop sequences and without a cancellation flag, whose callback never asks to
/// stop, is plain generation: callbacks see the tokens, and change nothing.
pub proof fn law_watching_changes_nothing<
    M: CausalModel,
    A: SamplingArithmetic,
    F: FnMut(GenerationEvent<'_>) -> ControlFlow<()>,
>(
    model: &M,
    limits: CausalModelLimits,
    arithmetic: &A,
    selector: Option<SamplerModel>,
    prompt: Seq<i32>,
    max_new_tokens: usize,
    eos: Seq<i32>,
    on_token: F,
    result: Result<ControlledGenerationOutput, GenerationError>,
)
    requires
        stream_outcome(
            model,
            limits,
            arithmetic,
            selector,
            prompt,
            Ending { max_new_tokens, eos, patterns: Seq::empty() },
            FlagReads { set: false, unset: true },
            on_token,
            result,
        ),
        forall|event: GenerationEvent<'_>, answer: ControlFlow<()>| #[trigger]
            call_ensures(on_token, (event,), answer) ==> answer is Continue,
    ensures
        plain_outcome(
            model,
            limits,
            arithmetic,
            selector,
            prompt,
            max_new_tokens,
            eos,
            match result {
                Ok(controlled) => Ok(controlled.output),
                Err(error) => Err(error),
            },
        ),
{
    if let Ok(controlled) = result {
        let ending = Ending { max_new_tokens, eos, patterns: Seq::empty() };
        let generated = controlled.output.generated_token_ids@;
        assert(finished(
            model,
            arithmetic,
            selector,
            prompt,
            ending,
            FlagReads { set: false, unset: true },
            on_token,
            controlled,
        ));
        if generated.len() > 0 {
            assert(!shown(on_token, ending, generated, generated.len() - 1, true));
        }
    } else {
        let error = result->Err_0;
        let ending = Ending { max_new_tokens, eos, patterns: Seq::empty() };
        let flag = FlagReads { set: false, unset: true };
        if generation_error(limits, prompt, max_new_tokens, eos) is None {
            assert(patterns_error(ending.patterns, limits.vocab_size) is None);
            assert(broke_down(
                model,
                arithmetic,
                selector,
                prompt,
                ending,
                flag,
                on_token,
                error,
            ));
            let trace = choose|trace: DecodeTrace<M::Cache>| #[trigger]
                decodes(model, arithmetic, selector, prompt, trace) && {
                    ||| going_on(ending, flag, on_token, trace.tokens) && breaks_after(
                        model,
                        arithmetic,
                        prompt,
                        trace,
                        error,
                    )
                    ||| over_with(prompt, ending, flag, on_token, trace.tokens) && breaks_at_end(
                        model,
                        trace,
                        error,
                    )
                };
            if !(going_on(ending, flag, on_token, trace.tokens) && breaks_after(
                model,
                arithmetic,
                prompt,
                trace,
                error,
            )) {
                let tokens = trace.tokens;
                assert(!shown(on_token, ending, tokens, tokens.len() - 1, true));
                assert(closed_by(ending, tokens));
            }
        }
    }
}

/// Every logit that a higher threshold retains is above a lower one.
proof fn lemma_lower_threshold(logits: Seq<u32>, low: u32, high: u32)
    requires
        order_32(low) < order_32(high),
    ensures
        count_retained(logits, high) <= count_above(logits, low),
    decreases logits.len(),
{
    if logits.len() > 0 {
        lemma_lower_threshold(logits.drop_last(), low, high);
    }
}

/// The k-th greatest logit is one number, whichever bits it is written with.
pub proof fn law_threshold_is_unique(logits: Seq<u32>, k: int, a: u32, b: u32)
    requires
        kth_greatest(logits, k, a),
        kth_greatest(logits, k, b),
    ensures
        order_32(a) == order_32(b),
{
    if order_32(a) < order_32(b) {
        lemma_lower_threshold(logits, a, b);
    } else if order_32(b) < order_32(a) {
        lemma_lower_threshold(logits, b, a);
    }
}

/// Arithmetic that always gives the same results for the same numbers.
pub open spec fn steady<A: SamplingArithmetic>(arithmetic: &A) -> bool {
    &&& forall|temperature: u64, logit: u32, maximum: u32, first_result: u64, second_result: u64|
        #[trigger]
        call_ensures(
            A::exponential,
            (arithmetic, temperature, logit, maximum),
            first_result,
        ) && #[trigger] call_ensures(
            A::exponential,
            (arithmetic, temperature, logit, maximum),
            second_result,
        ) ==> first_result == second_result
    &&& forall|left: u64, right: u64, first_result: u64, second_result: u64| #[trigger]
        call_ensures(A::quotient, (arithmetic, left, right), first_result)
            && #[trigger] call_ensures(A::quotient, (arithmetic, left, right), second_result)
            ==> first_result == second_result
    &&& forall|left: u64, right: u64, first_result: u64, second_result: u64| #[trigger]
        call_ensures(A::difference, (arithmetic, left, right), first_result)
            && #[trigger] call_ensures(A::difference, (arithmetic, left, right), second_result)
            ==> first_result == second_result
    &&& forall|first: &[u64], first_result: u64, second: &[u64], second_result: u64|
        first@ == second@ && #[trigger] call_ensures(A::total, (arithmetic, first), first_result)
            && #[trigger] call_ensures(A::total, (arithmetic, second), second_result)
            ==> first_result == second_result
    &&& forall|first: &[u64], first_result: Vec<u64>, second: &[u64], second_result: Vec<u64>|
        first@ == second@ && #[trigger] call_ensures(
            A::cumulative,
            (arithmetic, first),
            first_result,
        ) && #[trigger] call_ensures(A::cumulative, (arithmetic, second), second_result)
            ==> first_result@ == second_result@
    &&& forall|numerator: u64, first_result: u64, second_result: u64| #[trigger]
        call_ensures(A::uniform, (arithmetic, numerator), first_result) && #[trigger] call_ensures(
            A::uniform,
            (arithmetic, numerator),
            second_result,
        ) ==> first_result == second_result
}

/// A token at the same place of two orders of the same tokens: nothing can stand before it in one
/// order only.
proof fn lemma_same_place(
    logits: Seq<u32>,
    a: u32,
    b: u32,
    first: Seq<usize>,
    second: Seq<usize>,
    n: int,
)
    requires
        order_32(a) == order_32(b),
        ascending_order(logits, a, first),
        ascending_order(logits, b, second),
        0 <= n <= first.len(),
        n <= second.len(),
    ensures
        first.take(n) == second.take(n),
    decreases n,
{
    if n > 0 {
        let k = n - 1;
        lemma_same_place(logits, a, b, first, second, k);
        assert forall|i: int| 0 <= i < k implies #[trigger] first[i] == second[i] by {
            assert(first.take(k)[i] == second.take(k)[i]);
        }
        let x = first[k];
        let y = second[k];
        assert(retained(logits, a, x as int));
        assert(retained(logits, b, y as int));
        assert(second.contains(x));
        assert(first.contains(y));
        let i = choose|i: int| 0 <= i < second.len() && second[i] == x;
        let j = choose|j: int| 0 <= j < first.len() && first[j] == y;
        assert(second[i] == x);
        assert(first[j] == y);
        if i < k {
            assert(first[i] == x);
            assert(before_in_order(logits, first[i], first[k]));
        }
        if j < k {
            assert(second[j] == y);
            assert(before_in_order(logits, second[j], second[k]));
        }
        if i > k && j > k {
            assert(before_in_order(logits, second[k], second[i]));
            assert(before_in_order(logits, first[k], first[j]));
        }
        assert(x == y);
        assert(first.take(n) =~= first.take(k).push(x));
        assert(second.take(n) =~= second.take(k).push(y));
    }
}

/// The order of the tokens above a threshold is one order.
pub proof fn law_order_is_unique(
    logits: Seq<u32>,
    a: u32,
    b: u32,
    first: Seq<usize>,
    second: Seq<usize>,
)
    requires
        order_32(a) == order_32(b),
        ascending_order(logits, a, first),
        ascending_order(logits, b, second),
    ensures
        first == second,
{
    let n = if first.len() <= second.len() {
        first.len() as int
    } else {
        second.len() as int
    };
    lemma_same_place(logits, a, b, first, second, n);
    assert forall|i: int| 0 <= i < n implies #[trigger] first[i] == second[i] by {
        assert(first.take(n)[i] == second.take(n)[i]);
    }
    if first.len() < second.len() {
        let y = second[n];
        assert(retained(logits, b, y as int));
        assert(first.contains(y));
        let j = choose|j: int| 0 <= j < first.len() && first[j] == y;
        assert(first[j] == y);
        assert(second[j] == y);
        assert(before_in_order(logits, second[j], second[n]));
    } else if second.len() < first.len() {
        let x = first[n];
        assert(retained(logits, a, x as int));
        assert(second.contains(x));
        let j = choose|j: int| 0 <= j < second.len() && second[j] == x;
        assert(second[j] == x);
        assert(first[j] == x);
        assert(before_in_order(logits, first[j], first[n]));
    }
    assert(first =~= second);
}

/// Filtering leaves the same of the same weights.
proof fn lemma_same_trim<A: SamplingArithmetic>(
    arithmetic: &A,
    config: SamplingConfig,
    order: Seq<usize>,
    weights: Seq<u64>,
    a: Seq<u64>,
    b: Seq<u64>,
)
    requires
        steady(arithmetic),
        trimmed(arithmetic, config, order, weights, a),
        trimmed(arithmetic, config, order, weights, b),
    ensures
        a == b,
{
    if order.len() > 0 {
        let (total, parts, sums, limit) = choose|
            total: u64,
            parts: Seq<u64>,
            sums: Vec<u64>,
            limit: u64,
        |
            a == kept_weights(order, sums@, limit, weights) && #[trigger] nucleus(
                arithmetic,
                config,
                order,
                weights,
                total,
                parts,
                sums,
                limit,
            );
        let (other_total, other_parts, other_sums, other_limit) = choose|
            total: u64,
            parts: Seq<u64>,
            sums: Vec<u64>,
            limit: u64,
        |
            b == kept_weights(order, sums@, limit, weights) && #[trigger] nucleus(
                arithmetic,
                config,
                order,
                weights,
                total,
                parts,
                sums,
                limit,
            );
        assert(total == other_total);
        assert(parts =~= other_parts);
        assert(sums@ == other_sums@);
        assert(limit == other_limit);
    }
}

/// Arithmetic that repeats gives the same row the same probabilities.
pub proof fn law_same_row_has_the_same_shares<A: SamplingArithmetic>(
    arithmetic: &A,
    config: SamplingConfig,
    logits: Seq<u32>,
    p: FilterPlan,
    q: FilterPlan,
    a: Seq<u64>,
    b: Seq<u64>,
)
    requires
        steady(arithmetic),
        plan_for(config, logits, p),
        plan_for(config, logits, q),
        shares_of(arithmetic, config, logits, p, a),
        shares_of(arithmetic, config, logits, q, b),
    ensures
        order_32(p.threshold) == order_32(q.threshold),
        a == b,
{
    if top_k_active(config, logits) {
        law_threshold_is_unique(logits, config.top_k as int, p.threshold, q.threshold);
    }
    if config.top_p < ONE_64 {
        law_order_is_unique(logits, p.threshold, q.threshold, p.order@, q.order@);
    }
    assert(p.order@ =~= q.order@);
    assert(p.maximum == q.maximum);
    let (weights, kept, total) = choose|weights: Seq<u64>, kept: Seq<u64>, total: u64| #[trigger]
        shares_with(arithmetic, config, logits, p, a, weights, kept, total);
    let (other_weights, other_kept, other_total) = choose|
        weights: Seq<u64>,
        kept: Seq<u64>,
        total: u64,
    | #[trigger]
        shares_with(arithmetic, config, logits, q, b, weights, kept, total);
    assert forall|i: int| 0 <= i < weights.len() implies #[trigger] weights[i]
        == other_weights[i] by {
        assert(retained(logits, p.threshold, i) == retained(logits, q.threshold, i));
        assert(weighs(arithmetic, config, logits, p, i, weights[i]));
        assert(weighs(arithmetic, config, logits, q, i, other_weights[i]));
    }
    assert(weights =~= other_weights);
    lemma_same_trim(arithmetic, config, p.order@, weights, kept, other_kept);
    assert(total == other_total);
    assert(a =~= b);
}

/// Samplers in the same state choose the same token from the same logits.
pub proof fn law_same_state_draws_the_same_token<A: SamplingArithmetic>(
    arithmetic: &A,
    sampler: SamplerModel,
    first: &[u32],
    second: &[u32],
    a: i32,
    b: i32,
)
    requires
        steady(arithmetic),
        first@ == second@,
        sampled(arithmetic, sampler, first, a),
        sampled(arithmetic, sampler, second, b),
    ensures
        a == b,
{
    let (p, shares, sums, u) = choose|
        plan: FilterPlan,
        probabilities: Vec<u64>,
        sums: Vec<u64>,
        uniform: u64,
    | #[trigger]
        sampled_with(arithmetic, sampler, first, a, plan, probabilities, sums, uniform);
    let (q, other_shares, other_sums, v) = choose|
        plan: FilterPlan,
        probabilities: Vec<u64>,
        sums: Vec<u64>,
        uniform: u64,
    | #[trigger]
        sampled_with(arithmetic, sampler, second, b, plan, probabilities, sums, uniform);
    let row = first@;
    law_same_row_has_the_same_shares(
        arithmetic,
        sampler.config,
        row,
        p,
        q,
        shares@,
        other_shares@,
    );
    assert(u == v);
    assert(sums@ == other_sums@);
    assert forall|i: int| #[trigger]
        drawable(row, p.threshold, shares@, i) == drawable(row, q.threshold, shares@, i) by {
        assert(retained(row, p.threshold, i) == retained(row, q.threshold, i));
    }
    assert(picked(row, p.threshold, shares@, sums@, u, b as int)) by {
        assert(drawable(row, q.threshold, shares@, b as int));
        assert forall|j: int|
            0 <= j < b && #[trigger] drawable(
                row,
                p.threshold,
                shares@,
                j,
            ) implies !less_64(u, sums@[j]) by {
            assert(drawable(row, q.threshold, shares@, j));
        }
        if !less_64(u, sums@[b as int]) {
            assert forall|j: int| #[trigger] drawable(row, p.threshold, shares@, j) implies j
                <= b by {
                assert(drawable(row, q.threshold, shares@, j));
            }
        }
    }
    law_picked_is_unique(row, p.threshold, shares@, sums@, u, a as int, b as int);
}

/// `token` is in the vocabulary and has a positive probability after filtering.
pub open spec fn has_share<A: SamplingArithmetic>(
    arithmetic: &A,
    config: SamplingConfig,
    logits: &[u32],
    token: i32,
) -> bool {
    0 <= token < logits@.len() && exists|plan: FilterPlan, probabilities: Vec<u64>|
        plan_for(config, logits@, plan) && #[trigger] shares_of(
            arithmetic,
            config,
            logits@,
            plan,
            probabilities@,
        ) && less_64(0, probabilities@[token as int])
}

/// A sampler and its copy sample alike. Sampling fails exactly where the row is empty or too long
/// to index, holds NaN or positive infinity, or is masked throughout; it then draws nothing, so
/// whatever is sampled afterwards is the same. Otherwise both return the same token, which has a
/// positive probability, and both stand one draw further.
pub proof fn law_copies_sample_alike<A: SamplingArithmetic>(
    arithmetic: &A,
    sampler: SamplerModel,
    logits: &[u32],
    same: &[u32],
    result: Result<i32, GenerationError>,
    after: SamplerModel,
    copy_result: Result<i32, GenerationError>,
    copy_after: SamplerModel,
)
    requires
        usable(arithmetic),
        steady(arithmetic),
        config_error(sampler.config) is None,
        logits@ == same@,
        sample_outcome(arithmetic, sampler, logits, result, after),
        sample_outcome(arithmetic, sampler, same, copy_result, copy_after),
    ensures
        result is Err <==> logits@.len() == 0 || logits@.len() - 1 > i32::MAX || unordered_logit(
            logits@,
        ) || all_masked(logits@),
        result is Err ==> after == sampler && copy_result is Err,
        result matches Ok(token) ==> copy_result == Ok::<i32, GenerationError>(token) && has_share(
            arithmetic,
            sampler.config,
            logits,
            token,
        ),
        after == copy_after,
{
    if let Ok(token) = result {
        law_same_state_draws_the_same_token(
            arithmetic,
            sampler,
            logits,
            same,
            token,
            copy_result->Ok_0,
        );
        let (plan, probabilities, sums, uniform) = choose|
            plan: FilterPlan,
            probabilities: Vec<u64>,
            sums: Vec<u64>,
            uniform: u64,
        | #[trigger]
            sampled_with(arithmetic, sampler, logits, token, plan, probabilities, sums, uniform);
        assert(drawable(logits@, plan.threshold, probabilities@, token as int));
        law_some_token_can_be_drawn(arithmetic, sampler.config, logits@, plan, probabilities@);
        assert(less_64(0, probabilities@[token as int]));
    }
}

/// A model whose passes come out the same from caches that are the same, as far as `same` tells.
pub open spec fn repeats<M: CausalModel>(
    model: &M,
    same: spec_fn(M::Cache, M::Cache) -> bool,
) -> bool {
    &&& forall|a: M::Cache, b: M::Cache| #[trigger]
        call_ensures(M::new_cache, (model,), a) && #[trigger] call_ensures(
            M::new_cache,
            (model,),
            b,
        ) ==> same(a, b)
    &&& forall|
        tokens: Seq<i32>,
        a: M::Cache,
        a_after: M::Cache,
        a_block: LogitBlock,
        b: M::Cache,
        b_after: M::Cache,
        b_block: LogitBlock,
    |
        same(a, b) && #[trigger] model.advances(tokens, a, a_after, Ok(a_block))
            && #[trigger] model.advances(tokens, b, b_after, Ok(b_block)) ==> same(a_after, b_after)
            && a_block@ == b_block@
    &&& forall|a_block: LogitBlock, x: i32, b_block: LogitBlock, y: i32|
        a_block@ == b_block@ && #[trigger] call_ensures(
            M::greedy_token,
            (model, &a_block),
            Ok(x),
        ) && #[trigger] call_ensures(M::greedy_token, (model, &b_block), Ok(y)) ==> x == y
}

/// Two runs agree on their first `n` tokens, and are alike after them.
spec fn alike<C>(
    same: spec_fn(C, C) -> bool,
    first: DecodeTrace<C>,
    second: DecodeTrace<C>,
    n: int,
) -> bool {
    &&& forall|i: int| 0 <= i < n ==> #[trigger] first.tokens[i] == second.tokens[i]
    &&& first.states[n] == second.states[n]
    &&& n > 0 ==> same(first.caches[n - 1], second.caches[n - 1])
}

proof fn lemma_runs_alike<M: CausalModel, A: SamplingArithmetic>(
    model: &M,
    same: spec_fn(M::Cache, M::Cache) -> bool,
    arithmetic: &A,
    selector: Option<SamplerModel>,
    prompt: Seq<i32>,
    first: DecodeTrace<M::Cache>,
    second: DecodeTrace<M::Cache>,
    n: int,
)
    requires
        repeats(model, same),
        selector is Some ==> steady(arithmetic),
        decodes(model, arithmetic, selector, prompt, first),
        decodes(model, arithmetic, selector, prompt, second),
        0 <= n <= first.tokens.len(),
        n <= second.tokens.len(),
    ensures
        alike(same, first, second, n),
        first.states[n] is Some == selector is Some,
    decreases n,
{
    if n > 0 {
        let k = n - 1;
        lemma_runs_alike(model, same, arithmetic, selector, prompt, first, second, k);
        if k == 0 {
            assert(model.advances(prompt, first.start, first.caches[0], Ok(first.blocks[0])));
            assert(model.advances(prompt, second.start, second.caches[0], Ok(second.blocks[0])));
        } else {
            let tokens = seq![first.tokens[k - 1]];
            assert(model.advances(
                tokens,
                first.caches[k - 1],
                first.caches[k],
                Ok(first.blocks[k]),
            ));
            assert(model.advances(
                tokens,
                second.caches[k - 1],
                second.caches[k],
                Ok(second.blocks[k]),
            ));
        }
        assert(same(first.caches[k], second.caches[k]));
        assert(first.blocks[k]@ == second.blocks[k]@);
        let a = first.tokens[k];
        let b = second.tokens[k];
        let state = first.states[k];
        assert(selected(model, arithmetic, state, first.blocks[k], Ok(a), first.states[k + 1]));
        assert(selected(model, arithmetic, state, second.blocks[k], Ok(b), second.states[k + 1]));
        if let Some(sampler) = state {
            let row = first.blocks[k]@.last_row();
            assert(single_row(first.blocks[k]@));
            assert(fill_error(sampler.config, row) is None);
            let x = choose|x: &[u32]| x@ == row && #[trigger] sampled(arithmetic, sampler, x, a);
            let y = choose|y: &[u32]| y@ == row && #[trigger] sampled(arithmetic, sampler, y, b);
            law_same_state_draws_the_same_token(arithmetic, sampler, x, y, a, b);
        }
        assert(a == b);
    }
}

/// Requests repeat: on a model and with arithmetic that do, two requests that start with the same
/// sampler, or both without one, generate the same tokens. A seed fixes the sampler, so it fixes
/// what is generated.
pub proof fn law_requests_repeat<M: CausalModel, A: SamplingArithmetic>(
    model: &M,
    same: spec_fn(M::Cache, M::Cache) -> bool,
    limits: CausalModelLimits,
    arithmetic: &A,
    selector: Option<SamplerModel>,
    prompt: Seq<i32>,
    max_new_tokens: usize,
    eos: Seq<i32>,
    first: TokenGenerationOutput,
    second: TokenGenerationOutput,
)
    requires
        repeats(model, same),
        selector is Some ==> steady(arithmetic),
        plain_outcome(
            model,
            limits,
            arithmetic,
            selector,
            prompt,
            max_new_tokens,
            eos,
            Ok(first),
        ),
        plain_outcome(
            model,
            limits,
            arithmetic,
            selector,
            prompt,
            max_new_tokens,
            eos,
            Ok(second),
        ),
    ensures
        first.token_ids@ == second.token_ids@,
        first.generated_token_ids@ == second.generated_token_ids@,
        first.stopped_on_eos == second.stopped_on_eos,
{
    let ending = Ending { max_new_tokens, eos, patterns: Seq::empty() };
    assert(completed(model, arithmetic, selector, prompt, ending, first));
    assert(completed(model, arithmetic, selector, prompt, ending, second));
    let a = first.generated_token_ids@;
    let b = second.generated_token_ids@;
    if max_new_tokens > 0 {
        let x = choose|trace: DecodeTrace<M::Cache>| #[trigger]
            decodes(model, arithmetic, selector, prompt, trace) && trace.tokens == a;
        let y = choose|trace: DecodeTrace<M::Cache>| #[trigger]
            decodes(model, arithmetic, selector, prompt, trace) && trace.tokens == b;
        let n = if a.len() <= b.len() {
            a.len() as int
        } else {
            b.len() as int
        };
        lemma_runs_alike(model, same, arithmetic, selector, prompt, x, y, n);
        assert(a.take(n) =~= b.take(n)) by {
            assert forall|i: int| 0 <= i < n implies a[i] == b[i] by {
                assert(x.tokens[i] == y.tokens[i]);
            }
        }
        assert(a.take(a.len() as int) =~= a);
        assert(b.take(b.len() as int) =~= b);
        if a.len() < b.len() {
            assert(natural_end(ending, b.take(n)) is None);
        } else if b.len() < a.len() {
            assert(natural_end(ending, a.take(n)) is None);
        }
    }
    assert(a =~= b);
}

} // verus!
