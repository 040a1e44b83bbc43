//! What holds of speculative decoding as a whole.

use crate::generation::control::{FlagReads, GenerationEvent};
use crate::generation::sampling::SamplingArithmetic;
use crate::generation::speculative::branch::{
    has_dims, lemma_then_step, predicted, predicted_by, walked, Feed, Path, SpeculativeModel, Step,
};
use crate::generation::speculative::rounds::{
    emitted, law_greedy_speculation_follows_the_target, rounds_follow, Round, Setting,
};
use crate::generation::speculative::selection::greatest;
use crate::generation::speculative::{
    speculated, speculation_outcome, starts, SpeculativeGenerationOutput,
};
use crate::generation::{
    completed, decodes, natural_end, plain_outcome, selected, shown, CausalModelLimits,
    DecodeTrace, TokenGenerationOutput,
};
use crate::logits::{first_maximum, greedy_outcome, LogitBlock};
use std::ops::ControlFlow;
use vstd::prelude::*;

verus! {

/// A model whose logits after some tokens are the same, however the tokens were read: one by one,
/// in blocks, or by a copy of a cache.
pub open spec fn rows_depend_on_context<M: SpeculativeModel>(model: &M, vocabulary: usize) -> bool {
    forall|context: Seq<i32>, a: Seq<u32>, b: Seq<u32>| #[trigger]
        predicted(model, vocabulary, context, a) && #[trigger] predicted(
            model,
            vocabulary,
            context,
            b,
        ) ==> a == b
}

/// A model that returns one row over its vocabulary for some tokens, and chooses the first greatest
/// logit of it.
pub open spec fn chooses_greatest<M: SpeculativeModel>(model: &M, vocabulary: usize) -> bool {
    &&& forall|tokens: Seq<i32>, before: M::Cache, after: M::Cache, block: LogitBlock| #[trigger]
        model.advances(tokens, before, after, Ok(block)) ==> has_dims(block@, 1, vocabulary)
    &&& forall|block: LogitBlock, token: i32| #[trigger]
        call_ensures(M::greedy_token, (model, &block), Ok(token)) ==> greedy_outcome(
            block@,
            Ok(token),
        )
}

/// Plain decoding walks a path of its own: each pass returns the logits after the prompt and the
/// tokens before it.
proof fn lemma_plain_path<M: SpeculativeModel, A: SamplingArithmetic>(
    model: &M,
    vocabulary: usize,
    arithmetic: &A,
    prompt: Seq<i32>,
    trace: DecodeTrace<M::Cache>,
    i: int,
) -> (path: Path<M::Cache>)
    requires
        chooses_greatest(model, vocabulary),
        decodes(model, arithmetic, None, prompt, trace),
        prompt.len() > 0,
        0 <= i < trace.tokens.len(),
    ensures
        walked(model, path),
        path.end() == trace.caches[i],
        path.fed() == prompt + trace.tokens.take(i),
        predicted(model, vocabulary, prompt + trace.tokens.take(i), trace.blocks[i]@.last_row()),
        trace.states[i] is None,
    decreases i,
{
    let block = trace.blocks[i];
    if i == 0 {
        let start = Path { start: trace.start, steps: Seq::empty() };
        assert(walked(model, start));
        let step = Step { feed: Feed::Last(prompt), block, cache: trace.caches[0] };
        lemma_then_step(model, start, step);
        let path = start.then_step(step);
        assert(Seq::<i32>::empty() + prompt =~= prompt + trace.tokens.take(0));
        assert(predicted_by(
            model,
            vocabulary,
            prompt + trace.tokens.take(0),
            block@.last_row(),
            path,
            0,
        ));
        path
    } else {
        let before = lemma_plain_path(model, vocabulary, arithmetic, prompt, trace, i - 1);
        let fed = seq![trace.tokens[i - 1]];
        assert(model.advances(fed, trace.caches[i - 1], trace.caches[i], Ok(block)));
        let step = Step { feed: Feed::Last(fed), block, cache: trace.caches[i] };
        lemma_then_step(model, before, step);
        let path = before.then_step(step);
        assert(prompt + trace.tokens.take(i - 1) + fed =~= prompt + trace.tokens.take(i));
        assert(selected(
            model,
            arithmetic,
            trace.states[i - 1],
            trace.blocks[i - 1],
            Ok(trace.tokens[i - 1]),
            trace.states[i],
        ));
        assert(predicted_by(
            model,
            vocabulary,
            prompt + trace.tokens.take(i),
            block@.last_row(),
            path,
            0,
        ));
        path
    }
}

/// Greedy rounds and plain greedy decoding agree on every token that both have.
proof fn lemma_same_tokens<
    T: SpeculativeModel,
    D: SpeculativeModel,
    A: SamplingArithmetic,
    P: SamplingArithmetic,
>(
    target: &T,
    draft: &D,
    arithmetic: &A,
    setting: Setting,
    prompt: Seq<i32>,
    start: Seq<u8>,
    rounds: Seq<Round>,
    plain: &P,
    trace: DecodeTrace<T::Cache>,
    n: int,
)
    requires
        setting.sampling is None,
        rows_depend_on_context(target, setting.vocabulary),
        chooses_greatest(target, setting.vocabulary),
        rounds_follow(target, draft, arithmetic, setting, prompt, start, rounds),
        decodes(target, plain, None, prompt, trace),
        prompt.len() > 0,
        0 <= n <= emitted(rounds).len(),
        n <= trace.tokens.len(),
    ensures
        emitted(rounds).take(n) == trace.tokens.take(n),
    decreases n,
{
    let tokens = emitted(rounds);
    if n > 0 {
        let k = n - 1;
        lemma_same_tokens(
            target,
            draft,
            arithmetic,
            setting,
            prompt,
            start,
            rounds,
            plain,
            trace,
            k,
        );
        law_greedy_speculation_follows_the_target(
            target,
            draft,
            arithmetic,
            setting,
            prompt,
            start,
            rounds,
            k,
        );
        let row = choose|row: Seq<u32>|
            predicted(target, setting.vocabulary, prompt + tokens.take(k), row)
                && #[trigger] greatest(row, tokens[k]);
        let path = lemma_plain_path(target, setting.vocabulary, plain, prompt, trace, k);
        let own = trace.blocks[k]@.last_row();
        assert(predicted(target, setting.vocabulary, prompt + tokens.take(k), own));
        assert(row == own);
        assert(selected(
            target,
            plain,
            trace.states[k],
            trace.blocks[k],
            Ok(trace.tokens[k]),
            trace.states[k + 1],
        ));
        assert(greedy_outcome(trace.blocks[k]@, Ok(trace.tokens[k])));
        let i = choose|i: int| #[trigger] first_maximum(row, i) && tokens[k] == i as i32;
        let j = choose|j: int| #[trigger]
            first_maximum(own, j) && j <= i32::MAX && trace.tokens[k] == j as i32;
        assert(i == j);
        assert(tokens.take(n) =~= tokens.take(k).push(tokens[k]));
        assert(trace.tokens.take(n) =~= trace.tokens.take(k).push(trace.tokens[k]));
    } else {
        assert(tokens.take(0) =~= trace.tokens.take(0));
    }
}

/// The draft changes only the numbers: on a target whose logits depend on what it has read alone
/// and that chooses the first greatest, an uninterrupted greedy request returns the same output
/// with any draft, and any draft length, as plain greedy generation.
pub proof fn law_greedy_speculation_is_plain_generation<
    T: SpeculativeModel,
    D: SpeculativeModel,
    A: SamplingArithmetic,
    P: SamplingArithmetic,
    F: FnMut(GenerationEvent<'_>) -> ControlFlow<()>,
>(
    target: &T,
    target_limits: CausalModelLimits,
    draft: &D,
    draft_limits: CausalModelLimits,
    arithmetic: &A,
    prompt: Seq<i32>,
    setting: Setting,
    on_token: F,
    result: SpeculativeGenerationOutput,
    plain: &P,
    output: TokenGenerationOutput,
)
    requires
        setting.sampling is None,
        setting.ending.patterns.len() == 0,
        setting.vocabulary == target_limits.vocab_size,
        rows_depend_on_context(target, setting.vocabulary),
        chooses_greatest(target, setting.vocabulary),
        forall|event: GenerationEvent<'_>, answer: ControlFlow<()>| #[trigger]
            call_ensures(on_token, (event,), answer) ==> answer is Continue,
        speculation_outcome(
            target,
            target_limits,
            draft,
            draft_limits,
            arithmetic,
            prompt,
            setting,
            FlagReads { set: false, unset: true },
            on_token,
            Ok(result),
        ),
        plain_outcome(
            target,
            target_limits,
            plain,
            None,
            prompt,
            setting.ending.max_new_tokens,
            setting.ending.eos,
            Ok(output),
        ),
    ensures
        result.output.token_ids@ == output.token_ids@,
        result.output.generated_token_ids@ == output.generated_token_ids@,
        result.output.stopped_on_eos == output.stopped_on_eos,
{
    let ending = setting.ending;
    let a = result.output.generated_token_ids@;
    let b = output.generated_token_ids@;
    assert(ending.patterns =~= Seq::empty());
    assert(speculated(
        target,
        draft,
        arithmetic,
        setting,
        prompt,
        FlagReads { set: false, unset: true },
        on_token,
        result,
    ));
    assert(completed(target, plain, None, prompt, ending, output));
    if ending.max_new_tokens > 0 {
        assert(!shown(on_token, ending, a, a.len() - 1, true));
        assert(natural_end(ending, a) is Some);
        let (start, rounds) = choose|start: Seq<u8>, rounds: Seq<Round>| #[trigger]
            rounds_follow(target, draft, arithmetic, setting, prompt, start, rounds) && starts(
                setting.sampling,
                start,
            ) && emitted(rounds) == a && result.stats.count(rounds) && (rounds.len() > 0 && (
            rounds.last().replayed || rounds.last().tokens.len() == 0) ==> false
                && result.finish_reason is Cancelled);
        let trace = choose|trace: DecodeTrace<T::Cache>| #[trigger]
            decodes(target, plain, None, prompt, trace) && trace.tokens == b;
        let n = if a.len() <= b.len() {
            a.len() as int
        } else {
            b.len() as int
        };
        lemma_same_tokens(
            target,
            draft,
            arithmetic,
            setting,
            prompt,
            start,
            rounds,
            plain,
            trace,
            n,
        );
        assert(a.take(a.len() as int) =~= a);
        assert(b.take(b.len() as int) =~= b);
        if a.len() < b.len() {
            assert(natural_end(ending, b.take(n)) is None);
        } else if b.len() < a.len() {
            assert(natural_end(ending, a.take(n)) is None);
        }
    }
    assert(a =~= b);
}

} // verus!
