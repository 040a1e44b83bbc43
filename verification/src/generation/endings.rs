//! What generation returns, said of its tokens alone: which requests are taken, where they end and
//! why, and that each token is the model's own.

use crate::generation::control::{
    first_outside, in_vocabulary, lemma_all_inside, patterns_error, ControlledGenerationOutput,
    FlagReads, GenerationEvent, GenerationFinishReason,
};
use crate::generation::sampling::{sampled, SamplerModel, SamplingArithmetic};
use crate::generation::speculative::branch::SpeculativeModel;
use crate::generation::speculative::rounds::Setting;
use crate::generation::speculative::{speculation_outcome, SpeculativeGenerationOutput};
use crate::generation::{
    completed, decodes, ended, first_stop, generation_error, least_outside, natural_end,
    plain_outcome, selected, stream_outcome, CausalModel, CausalModelLimits, DecodeTrace, Ending,
    TokenGenerationOutput,
};
use crate::logits::{first_maximum, greedy_outcome, LogitBlock};
use crate::rng::chacha12_next;
use std::ops::ControlFlow;
use vstd::prelude::*;

verus! {

/// The last of some tokens is one of `eos`.
pub open spec fn ends_in(eos: Seq<i32>, generated: Seq<i32>) -> bool {
    generated.len() > 0 && exists|j: int|
        0 <= j < eos.len() && #[trigger] eos[j] == generated[generated.len() - 1]
}

/// Some tokens end with a stop sequence: the sequence is what stands at their end.
pub open spec fn ends_with_sequence(generated: Seq<i32>, sequence: Seq<i32>) -> bool {
    sequence.len() <= generated.len() && generated.skip(generated.len() - sequence.len())
        == sequence
}

/// Nothing ends a request before its last token: no earlier token is an end token, no stop sequence
/// is complete before it, and the limit is not reached before it.
pub open spec fn ends_not_before_last(
    max_new_tokens: usize,
    eos: Seq<i32>,
    patterns: Seq<Vec<i32>>,
    generated: Seq<i32>,
) -> bool {
    &&& generated.len() <= max_new_tokens
    &&& forall|i: int, j: int|
        0 <= i < generated.len() - 1 && 0 <= j < eos.len() ==> #[trigger] generated[i]
            != #[trigger] eos[j]
    &&& forall|k: int, p: int|
        1 <= k < generated.len() && 0 <= p < patterns.len() ==> !ends_with_sequence(
            #[trigger] generated.take(k),
            (#[trigger] patterns[p])@,
        )
}

/// A reason is the one that holds of some tokens: an end token before a stop sequence, the first
/// of several stop sequences, and the limit where there is neither.
pub open spec fn reason_holds(
    max_new_tokens: usize,
    eos: Seq<i32>,
    patterns: Seq<Vec<i32>>,
    generated: Seq<i32>,
    reason: GenerationFinishReason,
) -> bool {
    match reason {
        GenerationFinishReason::EosToken(token) => ends_in(eos, generated) && token
            == generated[generated.len() - 1],
        GenerationFinishReason::StopSequence(index) => {
            &&& !ends_in(eos, generated)
            &&& index < patterns.len()
            &&& ends_with_sequence(generated, patterns[index as int]@)
            &&& forall|p: int|
                0 <= p < index ==> !ends_with_sequence(generated, (#[trigger] patterns[p])@)
        },
        GenerationFinishReason::MaxNewTokens => {
            &&& generated.len() == max_new_tokens
            &&& !ends_in(eos, generated)
            &&& forall|p: int|
                0 <= p < patterns.len() && generated.len() > 0 ==> !ends_with_sequence(
                    generated,
                    (#[trigger] patterns[p])@,
                )
        },
        GenerationFinishReason::Cancelled => {
            &&& !ends_in(eos, generated)
            &&& generated.len() > 0 ==> generated.len() < max_new_tokens
            &&& forall|p: int|
                0 <= p < patterns.len() && generated.len() > 0 ==> !ends_with_sequence(
                    generated,
                    (#[trigger] patterns[p])@,
                )
        },
    }
}

proof fn lemma_ends_with(history: Seq<i32>, pattern: Seq<i32>)
    ensures
        crate::generation::control::ends_with(history, pattern) == ends_with_sequence(
            history,
            pattern,
        ),
{
    if ends_with_sequence(history, pattern) {
        let tail = history.skip(history.len() - pattern.len());
        assert forall|x: int| 0 <= x < pattern.len() implies #[trigger] pattern[x]
            == history[history.len() - pattern.len() + x] by {
            assert(tail[x] == history[history.len() - pattern.len() + x]);
        }
    }
    if crate::generation::control::ends_with(history, pattern) {
        assert(history.skip(history.len() - pattern.len()) =~= pattern);
    }
}

/// The first stop sequence that tokens end with.
proof fn lemma_first_stop_holds(patterns: Seq<Vec<i32>>, history: Seq<i32>)
    requires
        patterns.len() <= usize::MAX,
    ensures
        match first_stop(patterns, history) {
            Some(index) => index < patterns.len() && ends_with_sequence(
                history,
                patterns[index as int]@,
            ) && forall|p: int|
                0 <= p < index ==> !ends_with_sequence(history, (#[trigger] patterns[p])@),
            None => forall|p: int|
                0 <= p < patterns.len() ==> !ends_with_sequence(history, (#[trigger] patterns[p])@),
        },
    decreases patterns.len(),
{
    if patterns.len() > 0 {
        let fewer = patterns.drop_last();
        lemma_first_stop_holds(fewer, history);
        lemma_ends_with(history, patterns.last()@);
        assert forall|p: int| 0 <= p < fewer.len() implies fewer[p] == #[trigger] patterns[p] by {}
        assert(patterns[patterns.len() - 1] == patterns.last());
    }
}

/// What ends tokens, said of the tokens alone.
proof fn lemma_natural_end_holds(ending: Ending, generated: Seq<i32>)
    requires
        generated.len() > 0,
        ending.patterns.len() <= usize::MAX,
    ensures
        natural_end(ending, generated) matches Some(reason) ==> reason_holds(
            ending.max_new_tokens,
            ending.eos,
            ending.patterns,
            generated,
            reason,
        ) && !(reason is Cancelled),
        natural_end(ending, generated) is None ==> !ends_in(ending.eos, generated)
            && generated.len() != ending.max_new_tokens && forall|p: int|
            0 <= p < ending.patterns.len() ==> !ends_with_sequence(
                generated,
                (#[trigger] ending.patterns[p])@,
            ),
{
    lemma_first_stop_holds(ending.patterns, generated);
    if ends_in(ending.eos, generated) {
        let j = choose|j: int|
            0 <= j < ending.eos.len() && #[trigger] ending.eos[j] == generated[generated.len() - 1];
        assert(ending.eos.contains(generated.last()));
    }
    if ending.eos.contains(generated.last()) {
        let j = choose|j: int| 0 <= j < ending.eos.len() && ending.eos[j] == generated.last();
        assert(ending.eos[j] == generated[generated.len() - 1]);
    }
}

/// Tokens none of which but the last ends a request.
proof fn lemma_not_before_last(ending: Ending, generated: Seq<i32>)
    requires
        ending.patterns.len() <= usize::MAX,
        generated.len() <= ending.max_new_tokens,
        forall|k: int|
            1 <= k < generated.len() ==> natural_end(ending, #[trigger] generated.take(k)) is None,
    ensures
        ends_not_before_last(ending.max_new_tokens, ending.eos, ending.patterns, generated),
{
    assert forall|i: int, j: int|
        0 <= i < generated.len() - 1 && 0 <= j < ending.eos.len() implies #[trigger] generated[i]
        != #[trigger] ending.eos[j] by {
        let part = generated.take(i + 1);
        lemma_natural_end_holds(ending, part);
        assert(part[part.len() - 1] == generated[i]);
    }
    assert forall|k: int, p: int|
        1 <= k < generated.len() && 0 <= p < ending.patterns.len() implies !ends_with_sequence(
        #[trigger] generated.take(k),
        (#[trigger] ending.patterns[p])@,
    ) by {
        lemma_natural_end_holds(ending, generated.take(k));
    }
}

/// A request that ended ended once: nothing ended it before its last token, the reason given is the
/// one that holds of its tokens, and it is marked as stopped exactly where its last token is an end
/// token. It is cancelled only where its flag may read as set or the callback was asked.
pub proof fn law_request_ends_once<F: FnMut(GenerationEvent<'_>) -> ControlFlow<()>>(
    prompt: Seq<i32>,
    ending: Ending,
    flag: FlagReads,
    on_token: F,
    output: TokenGenerationOutput,
    reason: GenerationFinishReason,
)
    requires
        ended(prompt, ending, flag, on_token, output, reason),
        ending.patterns.len() <= usize::MAX,
    ensures
        output.token_ids@ == prompt + output.generated_token_ids@,
        ends_not_before_last(
            ending.max_new_tokens,
            ending.eos,
            ending.patterns,
            output.generated_token_ids@,
        ),
        reason_holds(
            ending.max_new_tokens,
            ending.eos,
            ending.patterns,
            output.generated_token_ids@,
            reason,
        ),
        output.stopped_on_eos == ends_in(ending.eos, output.generated_token_ids@),
        !flag.set && output.generated_token_ids@.len() == 0 ==> ending.max_new_tokens == 0,
        reason is Cancelled && !flag.set ==> exists|event: GenerationEvent<'_>, answer: ControlFlow<()>|
            #[trigger] call_ensures(on_token, (event,), answer) && answer is Break
                && event.generated_token_ids@ == output.generated_token_ids@,
{
    let generated = output.generated_token_ids@;
    lemma_not_before_last(ending, generated);
    if generated.len() > 0 {
        lemma_natural_end_holds(ending, generated);
        if ends_in(ending.eos, generated) {
            let j = choose|j: int|
                0 <= j < ending.eos.len() && #[trigger] ending.eos[j] == generated[generated.len()
                    - 1];
            assert(ending.eos.contains(generated.last()));
        }
        if ending.eos.contains(generated.last()) {
            let j = choose|j: int| 0 <= j < ending.eos.len() && ending.eos[j] == generated.last();
            assert(ending.eos[j] == generated[generated.len() - 1]);
        }
        if reason is Cancelled && !flag.set {
            assert(generated.take(generated.len() - 1 + 1) =~= generated);
            let n = generated.len() - 1;
            assert(crate::generation::shown(on_token, ending, generated, n, true));
        }
    }
}

/// A request without stop sequences, callback and cancellation flag that succeeds returns its prompt
/// and at most as many tokens as it asked for; none of them but the last is an end token; it is
/// marked as stopped exactly where the last one is, and has as many as it asked for otherwise.
pub proof fn law_plain_request_ends_once<M: CausalModel, A: SamplingArithmetic>(
    model: &M,
    limits: CausalModelLimits,
    arithmetic: &A,
    selector: Option<SamplerModel>,
    prompt: Seq<i32>,
    max_new_tokens: usize,
    eos: Seq<i32>,
    output: TokenGenerationOutput,
)
    requires
        plain_outcome(
            model,
            limits,
            arithmetic,
            selector,
            prompt,
            max_new_tokens,
            eos,
            Ok(output),
        ),
    ensures
        output.token_ids@ == prompt + output.generated_token_ids@,
        ends_not_before_last(max_new_tokens, eos, Seq::empty(), output.generated_token_ids@),
        output.stopped_on_eos == ends_in(eos, output.generated_token_ids@),
        !output.stopped_on_eos ==> output.generated_token_ids@.len() == max_new_tokens,
        output.generated_token_ids@.len() == 0 ==> max_new_tokens == 0,
{
    let ending = Ending { max_new_tokens, eos, patterns: Seq::empty() };
    let generated = output.generated_token_ids@;
    lemma_not_before_last(ending, generated);
    if generated.len() > 0 {
        lemma_natural_end_holds(ending, generated);
        if eos.contains(generated.last()) {
            let j = choose|j: int| 0 <= j < eos.len() && eos[j] == generated.last();
            assert(eos[j] == generated[generated.len() - 1]);
        }
    }
}

/// A stream that succeeds ends once, as `law_request_ends_once` says.
pub proof fn law_stream_ends_once<
    M: CausalModel,
    A: SamplingArithmetic,
    F: FnMut(GenerationEvent<'_>) -> ControlFlow<()>,
>(
    model: &M,
    limits: CausalModelLimits,
    arithmetic: &A,
    selector: Option<SamplerModel>,
    prompt: Seq<i32>,
    max_new_tokens: usize,
    eos: Seq<i32>,
    patterns: Seq<Vec<i32>>,
    flag: FlagReads,
    on_token: F,
    result: ControlledGenerationOutput,
)
    requires
        stream_outcome(
            model,
            limits,
            arithmetic,
            selector,
            prompt,
            Ending { max_new_tokens, eos, patterns },
            flag,
            on_token,
            Ok(result),
        ),
        patterns.len() <= usize::MAX,
    ensures
        result.output.token_ids@ == prompt + result.output.generated_token_ids@,
        ends_not_before_last(max_new_tokens, eos, patterns, result.output.generated_token_ids@),
        reason_holds(
            max_new_tokens,
            eos,
            patterns,
            result.output.generated_token_ids@,
            result.finish_reason,
        ),
        result.output.stopped_on_eos == ends_in(eos, result.output.generated_token_ids@),
{
    law_request_ends_once(
        prompt,
        Ending { max_new_tokens, eos, patterns },
        flag,
        on_token,
        result.output,
        result.finish_reason,
    );
}

/// A speculative request that succeeds ends once, greedy or sampled.
pub proof fn law_speculation_ends_once<
    T: SpeculativeModel,
    D: SpeculativeModel,
    A: SamplingArithmetic,
    F: FnMut(GenerationEvent<'_>) -> ControlFlow<()>,
>(
    target: &T,
    target_limits: CausalModelLimits,
    draft: &D,
    draft_limits: CausalModelLimits,
    arithmetic: &A,
    prompt: Seq<i32>,
    setting: Setting,
    flag: FlagReads,
    on_token: F,
    result: SpeculativeGenerationOutput,
)
    requires
        speculation_outcome(
            target,
            target_limits,
            draft,
            draft_limits,
            arithmetic,
            prompt,
            setting,
            flag,
            on_token,
            Ok(result),
        ),
        setting.ending.patterns.len() <= usize::MAX,
    ensures
        ({
            let generated = result.output.generated_token_ids@;
            let ending = setting.ending;
            &&& result.output.token_ids@ == prompt + generated
            &&& ends_not_before_last(ending.max_new_tokens, ending.eos, ending.patterns, generated)
            &&& reason_holds(
                ending.max_new_tokens,
                ending.eos,
                ending.patterns,
                generated,
                result.finish_reason,
            )
            &&& result.output.stopped_on_eos == ends_in(ending.eos, generated)
        }),
{
    law_request_ends_once(
        prompt,
        setting.ending,
        flag,
        on_token,
        result.output,
        result.finish_reason,
    );
}

/// A request is taken exactly where it has a prompt, every token of the prompt and every end token
/// is in the vocabulary, and the prompt and all tokens that it asks for fit the model.
pub proof fn law_requests_that_fit_are_taken(
    limits: CausalModelLimits,
    prompt: Seq<i32>,
    max_new_tokens: usize,
    eos: Seq<i32>,
)
    ensures
        generation_error(limits, prompt, max_new_tokens, eos) is None <==> {
            &&& prompt.len() > 0
            &&& forall|i: int|
                0 <= i < prompt.len() ==> 0 <= #[trigger] prompt[i] < limits.vocab_size
            &&& forall|i: int| 0 <= i < eos.len() ==> 0 <= #[trigger] eos[i] < limits.vocab_size
            &&& prompt.len() + max_new_tokens <= limits.max_sequence_length
        },
{
    lemma_all_inside(prompt, limits.vocab_size);
    lemma_least_inside(eos, limits.vocab_size);
    assert(forall|i: int|
        0 <= i < prompt.len() ==> in_vocabulary(#[trigger] prompt[i], limits.vocab_size) == (0
            <= prompt[i] < limits.vocab_size));
}

proof fn lemma_least_inside(tokens: Seq<i32>, vocab_size: usize)
    ensures
        least_outside(tokens, vocab_size) is None <==> forall|i: int|
            0 <= i < tokens.len() ==> 0 <= #[trigger] tokens[i] < vocab_size,
    decreases tokens.len(),
{
    if tokens.len() > 0 {
        let fewer = tokens.drop_last();
        lemma_least_inside(fewer, vocab_size);
        assert forall|i: int| 0 <= i < fewer.len() implies fewer[i] == #[trigger] tokens[i] by {}
        assert(tokens[tokens.len() - 1] == tokens.last());
        if least_outside(tokens, vocab_size) is None {
            assert forall|i: int| 0 <= i < tokens.len() implies 0 <= #[trigger] tokens[i]
                < vocab_size by {
                if i < fewer.len() {
                    assert(0 <= fewer[i] < vocab_size);
                }
            }
        }
    }
}

/// A model that computes a row of logits from the tokens before it, and whose caches hold those
/// tokens.
pub open spec fn computes<M: CausalModel>(
    model: &M,
    row: spec_fn(Seq<i32>) -> Seq<u32>,
    held: spec_fn(M::Cache) -> Seq<i32>,
) -> bool {
    &&& forall|cache: M::Cache| #[trigger]
        call_ensures(M::new_cache, (model,), cache) ==> held(cache) == Seq::<i32>::empty()
    &&& forall|tokens: Seq<i32>, before: M::Cache, after: M::Cache, block: LogitBlock| #[trigger]
        model.advances(tokens, before, after, Ok(block)) ==> held(after) == held(before) + tokens
            && block@.last_row() == row(held(after))
    &&& forall|block: LogitBlock, token: i32| #[trigger]
        call_ensures(M::greedy_token, (model, &block), Ok(token)) ==> greedy_outcome(
            block@,
            Ok(token),
        )
}

proof fn lemma_caches_hold<M: CausalModel, A: SamplingArithmetic>(
    model: &M,
    row: spec_fn(Seq<i32>) -> Seq<u32>,
    held: spec_fn(M::Cache) -> Seq<i32>,
    arithmetic: &A,
    selector: Option<SamplerModel>,
    prompt: Seq<i32>,
    trace: DecodeTrace<M::Cache>,
    i: int,
)
    requires
        computes(model, row, held),
        decodes(model, arithmetic, selector, prompt, trace),
        0 <= i < trace.tokens.len(),
    ensures
        held(trace.caches[i]) == prompt + trace.tokens.take(i),
        trace.blocks[i]@.last_row() == row(prompt + trace.tokens.take(i)),
        selector is None ==> trace.states[i] is None,
    decreases i,
{
    if i == 0 {
        assert(Seq::<i32>::empty() + prompt =~= prompt + trace.tokens.take(0));
    } else {
        lemma_caches_hold(model, row, held, arithmetic, selector, prompt, trace, i - 1);
        let fed = seq![trace.tokens[i - 1]];
        assert(model.advances(fed, trace.caches[i - 1], trace.caches[i], Ok(trace.blocks[i])));
        assert(prompt + trace.tokens.take(i - 1) + fed =~= prompt + trace.tokens.take(i));
        assert(selected(
            model,
            arithmetic,
            trace.states[i - 1],
            trace.blocks[i - 1],
            Ok(trace.tokens[i - 1]),
            trace.states[i],
        ));
    }
}

/// Greedy decoding is the model's own: each token is the index of the first greatest logit of the
/// row that the model computes from the prompt and the tokens before it.
pub proof fn law_greedy_tokens_are_the_models_own<M: CausalModel, A: SamplingArithmetic>(
    model: &M,
    row: spec_fn(Seq<i32>) -> Seq<u32>,
    held: spec_fn(M::Cache) -> Seq<i32>,
    limits: CausalModelLimits,
    arithmetic: &A,
    prompt: Seq<i32>,
    max_new_tokens: usize,
    eos: Seq<i32>,
    output: TokenGenerationOutput,
    i: int,
)
    requires
        computes(model, row, held),
        plain_outcome(
            model,
            limits,
            arithmetic,
            None,
            prompt,
            max_new_tokens,
            eos,
            Ok(output),
        ),
        0 <= i < output.generated_token_ids@.len(),
    ensures
        first_maximum(
            row(prompt + output.generated_token_ids@.take(i)),
            output.generated_token_ids@[i] as int,
        ),
{
    let ending = Ending { max_new_tokens, eos, patterns: Seq::empty() };
    assert(completed(model, arithmetic, None, prompt, ending, output));
    let trace = choose|trace: DecodeTrace<M::Cache>| #[trigger]
        decodes(model, arithmetic, None, prompt, trace) && trace.tokens
            == output.generated_token_ids@;
    lemma_caches_hold(model, row, held, arithmetic, None, prompt, trace, i);
    assert(selected(
        model,
        arithmetic,
        trace.states[i],
        trace.blocks[i],
        Ok(trace.tokens[i]),
        trace.states[i + 1],
    ));
    assert(greedy_outcome(trace.blocks[i]@, Ok(trace.tokens[i])));
}

/// Stop sequences are accepted if and only if none is empty and all of their tokens are entries of
/// the vocabulary.
pub proof fn law_stop_sequences_are_accepted(patterns: Seq<Vec<i32>>, vocab_size: usize)
    ensures
        patterns_error(patterns, vocab_size) is None <==> forall|i: int|
            0 <= i < patterns.len() ==> (#[trigger] patterns[i])@.len() > 0 && all_inside(
                patterns[i]@,
                vocab_size,
            ),
    decreases patterns.len(),
{
    if patterns.len() > 0 {
        let fewer = patterns.drop_last();
        let last = patterns[patterns.len() - 1];
        law_stop_sequences_are_accepted(fewer, vocab_size);
        lemma_none_outside(last@, vocab_size);
        assert(forall|i: int| 0 <= i < fewer.len() ==> fewer[i] == #[trigger] patterns[i]);
        if patterns_error(patterns, vocab_size) is None {
            assert forall|i: int| 0 <= i < patterns.len() implies (#[trigger] patterns[i])@.len()
                > 0 && all_inside(patterns[i]@, vocab_size) by {
                if i < fewer.len() {
                    assert(fewer[i]@.len() > 0);
                }
            }
        }
        if forall|i: int|
            0 <= i < patterns.len() ==> (#[trigger] patterns[i])@.len() > 0 && all_inside(
                patterns[i]@,
                vocab_size,
            ) {
            assert forall|i: int| 0 <= i < fewer.len() implies (#[trigger] fewer[i])@.len() > 0
                && all_inside(fewer[i]@, vocab_size) by {
                assert(patterns[i]@.len() > 0);
            }
            assert(last@.len() > 0 && all_inside(last@, vocab_size));
        }
    }
}

/// All tokens are entries of a vocabulary.
pub open spec fn all_inside(tokens: Seq<i32>, vocab_size: usize) -> bool {
    forall|i: int| 0 <= i < tokens.len() ==> 0 <= #[trigger] tokens[i] < vocab_size
}

proof fn lemma_none_outside(tokens: Seq<i32>, vocab_size: usize)
    ensures
        first_outside(tokens, vocab_size) is None <==> all_inside(tokens, vocab_size),
    decreases tokens.len(),
{
    if tokens.len() > 0 {
        let fewer = tokens.drop_last();
        lemma_none_outside(fewer, vocab_size);
        if all_inside(tokens, vocab_size) {
            assert forall|i: int| 0 <= i < fewer.len() implies 0 <= #[trigger] fewer[i]
                < vocab_size by {
                assert(tokens[i] == fewer[i]);
            }
            assert(0 <= tokens[tokens.len() - 1] < vocab_size);
        }
        if all_inside(fewer, vocab_size) && 0 <= tokens.last() < vocab_size {
            assert forall|i: int| 0 <= i < tokens.len() implies 0 <= #[trigger] tokens[i]
                < vocab_size by {
                if i < fewer.len() {
                    assert(tokens[i] == fewer[i]);
                }
            }
        }
    }
}

/// The state of a generator after `n` draws.
pub open spec fn drawn_on(state: Seq<u8>, n: int) -> Seq<u8>
    decreases n,
{
    if n <= 0 {
        state
    } else {
        chacha12_next(drawn_on(state, n - 1)).1
    }
}

proof fn lemma_states<M: CausalModel, A: SamplingArithmetic>(
    model: &M,
    arithmetic: &A,
    sampler: SamplerModel,
    prompt: Seq<i32>,
    trace: DecodeTrace<M::Cache>,
    i: int,
)
    requires
        decodes(model, arithmetic, Some(sampler), prompt, trace),
        0 <= i <= trace.tokens.len(),
    ensures
        trace.states[i] == Some(
            SamplerModel { config: sampler.config, state: drawn_on(sampler.state, i) },
        ),
    decreases i,
{
    if i > 0 {
        lemma_states(model, arithmetic, sampler, prompt, trace, i - 1);
        assert(selected(
            model,
            arithmetic,
            trace.states[i - 1],
            trace.blocks[i - 1],
            Ok(trace.tokens[i - 1]),
            trace.states[i],
        ));
    }
}

/// Sampled decoding draws once for each token, from the row that the model computes from the prompt
/// and the tokens before it, one draw of the generator after the other.
pub proof fn law_sampled_tokens_are_drawn_one_by_one<M: CausalModel, A: SamplingArithmetic>(
    model: &M,
    row: spec_fn(Seq<i32>) -> Seq<u32>,
    held: spec_fn(M::Cache) -> Seq<i32>,
    limits: CausalModelLimits,
    arithmetic: &A,
    sampler: SamplerModel,
    prompt: Seq<i32>,
    max_new_tokens: usize,
    eos: Seq<i32>,
    output: TokenGenerationOutput,
    i: int,
)
    requires
        computes(model, row, held),
        plain_outcome(
            model,
            limits,
            arithmetic,
            Some(sampler),
            prompt,
            max_new_tokens,
            eos,
            Ok(output),
        ),
        0 <= i < output.generated_token_ids@.len(),
    ensures
        exists|logits: &[u32]|
            logits@ == row(prompt + output.generated_token_ids@.take(i)) && #[trigger] sampled(
                arithmetic,
                SamplerModel { config: sampler.config, state: drawn_on(sampler.state, i) },
                logits,
                output.generated_token_ids@[i],
            ),
{
    let ending = Ending { max_new_tokens, eos, patterns: Seq::empty() };
    assert(completed(model, arithmetic, Some(sampler), prompt, ending, output));
    let trace = choose|trace: DecodeTrace<M::Cache>| #[trigger]
        decodes(model, arithmetic, Some(sampler), prompt, trace) && trace.tokens
            == output.generated_token_ids@;
    lemma_caches_hold(model, row, held, arithmetic, Some(sampler), prompt, trace, i);
    lemma_states(model, arithmetic, sampler, prompt, trace, i);
    assert(selected(
        model,
        arithmetic,
        trace.states[i],
        trace.blocks[i],
        Ok(trace.tokens[i]),
        trace.states[i + 1],
    ));
}

} // verus!
