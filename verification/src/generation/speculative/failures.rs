//! Where a speculative request may break off.

use crate::generation::control::{FlagReads, GenerationEvent};
use crate::generation::sampling::SamplingArithmetic;
use crate::generation::speculative::branch::{pass_fails, predicted, Feed, SpeculativeModel};
use crate::generation::speculative::rounds::{
    block_complete, block_limit, emitted, proposes, rounds_follow, state_after, Round, Setting,
};
use crate::generation::speculative::selection::{proposal_fault, verification_fault};
use crate::generation::{closed_by, going_on, open_ended, over_with, Ending, GenerationError};
use std::ops::ControlFlow;
use vstd::prelude::*;

verus! {

/// A model has read `context` and returned logits for the token after it.
pub open spec fn has_read<M: SpeculativeModel>(
    model: &M,
    vocabulary: usize,
    context: Seq<i32>,
) -> bool {
    exists|row: Seq<u32>| #[trigger] predicted(model, vocabulary, context, row)
}

/// Reading tokens into the target and then the draft fails, both of which have read `context`.
pub open spec fn reading_fails<T: SpeculativeModel, D: SpeculativeModel>(
    target: &T,
    draft: &D,
    vocabulary: usize,
    context: Seq<i32>,
    tokens: Seq<i32>,
    error: GenerationError,
) -> bool {
    ||| pass_fails(target, vocabulary, context, Feed::Last(tokens), error)
    ||| has_read(target, vocabulary, context + tokens) && pass_fails(
        draft,
        vocabulary,
        context,
        Feed::Last(tokens),
        error,
    )
}

/// None of the first `n` candidates ends the request.
pub open spec fn keeps_open(setting: Setting, candidates: Seq<i32>, n: int) -> bool {
    forall|i: int|
        0 <= i < n ==> !setting.ending.eos.contains(#[trigger] candidates[i])
}

/// Proposing fails after some candidates: no token can be chosen from the draft's logits after them
/// where the block goes on, or the draft's pass over the last of them fails.
pub open spec fn proposing_fails<D: SpeculativeModel, A: SamplingArithmetic>(
    draft: &D,
    arithmetic: &A,
    setting: Setting,
    context: Seq<i32>,
    done: nat,
    candidates: Seq<i32>,
    error: GenerationError,
) -> bool {
    let n = candidates.len() as int;
    ||| n < block_limit(setting, done) && keeps_open(setting, candidates, n) && exists|
        row: Seq<u32>,
    | #[trigger]
        predicted(draft, setting.vocabulary, context + candidates, row) && proposal_fault(
            arithmetic,
            setting.sampling,
            row,
            error.0@,
        )
    ||| 0 < n <= block_limit(setting, done) && keeps_open(setting, candidates, n - 1) && pass_fails(
        draft,
        setting.vocabulary,
        context + candidates.drop_last(),
        Feed::Last(seq![candidates.last()]),
        error,
    )
}

/// Proposing a block fails, with the random generator in `state` at its beginning.
pub open spec fn block_unproposed<D: SpeculativeModel, A: SamplingArithmetic>(
    draft: &D,
    arithmetic: &A,
    setting: Setting,
    context: Seq<i32>,
    done: nat,
    state: Seq<u8>,
    error: GenerationError,
) -> bool {
    exists|
        candidates: Seq<i32>,
        rows: Seq<Seq<u32>>,
        shares: Seq<Vec<u64>>,
        states: Seq<Seq<u8>>,
    | #[trigger]
        proposes(draft, arithmetic, setting, context, candidates, rows, shares, states)
            && states[0] == state && proposing_fails(
            draft,
            arithmetic,
            setting,
            context,
            done,
            candidates,
            error,
        )
}

/// The target's pass over a block of candidates fails.
pub open spec fn block_unread<T: SpeculativeModel, D: SpeculativeModel, A: SamplingArithmetic>(
    target: &T,
    draft: &D,
    arithmetic: &A,
    setting: Setting,
    context: Seq<i32>,
    done: nat,
    state: Seq<u8>,
    error: GenerationError,
) -> bool {
    exists|
        candidates: Seq<i32>,
        rows: Seq<Seq<u32>>,
        shares: Seq<Vec<u64>>,
        states: Seq<Seq<u8>>,
    | #[trigger]
        proposes(draft, arithmetic, setting, context, candidates, rows, shares, states)
            && states[0] == state && block_complete(setting, done, candidates) && has_read(
            draft,
            setting.vocabulary,
            context + candidates,
        ) && pass_fails(target, setting.vocabulary, context, Feed::Block(candidates), error)
}

/// A round under way fails: the answer to the candidate after those that were accepted, the choice
/// of one more token where all of them were, or reading what the round emitted.
pub open spec fn round_fails<T: SpeculativeModel, D: SpeculativeModel, A: SamplingArithmetic>(
    target: &T,
    draft: &D,
    arithmetic: &A,
    setting: Setting,
    round: Round,
    error: GenerationError,
) -> bool {
    let n = round.candidates.len() as int;
    let k = round.tokens.len() as int;
    ||| !round.rejected && k < n && verification_fault(
        arithmetic,
        setting.sampling,
        round.answer_states.last(),
        round.candidates[k],
        round.shares[k]@,
        round.target_rows[k],
        error.0@,
    )
    ||| !round.rejected && k == n && proposal_fault(
        arithmetic,
        setting.sampling,
        round.target_rows[n],
        error.0@,
    )
    ||| round.bonus() && reading_fails(
        target,
        draft,
        setting.vocabulary,
        round.context + round.candidates,
        seq![round.tokens.last()],
        error,
    )
    ||| round.rejected && !round.replayed && replay_fails(
        target,
        draft,
        setting.vocabulary,
        round.context,
        round.tokens,
        error,
    )
}

/// Reading tokens one by one fails, from where both models have read `context`.
pub open spec fn replay_fails<T: SpeculativeModel, D: SpeculativeModel>(
    target: &T,
    draft: &D,
    vocabulary: usize,
    context: Seq<i32>,
    tokens: Seq<i32>,
    error: GenerationError,
) -> bool {
    exists|i: int|
        0 <= i < tokens.len() && reading_fails(
            target,
            draft,
            vocabulary,
            context + tokens.take(i),
            seq![#[trigger] tokens[i]],
            error,
        )
}

/// How a request runs: whether it goes on after some tokens, whether it is over with them, and
/// whether its cancellation flag may read as set.
pub struct Course {
    pub going: spec_fn(Seq<i32>) -> bool,
    pub over: spec_fn(Seq<i32>) -> bool,
    pub cancellable: bool,
}

/// The course of a request with a callback and a cancellation flag.
pub open spec fn watched_course<F: FnMut(GenerationEvent<'_>) -> ControlFlow<()>>(
    prompt: Seq<i32>,
    ending: Ending,
    flag: FlagReads,
    on_token: F,
) -> Course {
    Course {
        going: |generated: Seq<i32>| going_on(ending, flag, on_token, generated),
        over: |generated: Seq<i32>|
            ending.max_new_tokens > 0 && over_with(prompt, ending, flag, on_token, generated),
        cancellable: flag.set,
    }
}

/// The course of a request without them: its tokens alone decide.
pub open spec fn lone_course(ending: Ending) -> Course {
    Course {
        going: |generated: Seq<i32>| open_ended(ending, generated),
        over: |generated: Seq<i32>| closed_by(ending, generated),
        cancellable: false,
    }
}

/// A request breaks off after some rounds. While it goes on, that is where the prompt is first read,
/// where the next block is proposed or read, or within the last round; once it is over, where the
/// device is waited for.
pub open spec fn breaks_off<
    T: SpeculativeModel,
    D: SpeculativeModel,
    A: SamplingArithmetic,
>(
    target: &T,
    draft: &D,
    arithmetic: &A,
    setting: Setting,
    prompt: Seq<i32>,
    course: Course,
    start: Seq<u8>,
    rounds: Seq<Round>,
    error: GenerationError,
) -> bool {
    let generated = emitted(rounds);
    let context = prompt + generated;
    let state = state_after(rounds, start);
    let vocabulary = setting.vocabulary;
    ||| (course.going)(generated) && {
        ||| rounds.len() == 0 && reading_fails(
            target,
            draft,
            vocabulary,
            Seq::empty(),
            prompt,
            error,
        )
        ||| (rounds.len() > 0 ==> rounds.last().complete()) && has_read(
            target,
            vocabulary,
            context,
        ) && has_read(draft, vocabulary, context) && (block_unproposed(
            draft,
            arithmetic,
            setting,
            context,
            generated.len(),
            state,
            error,
        ) || block_unread(
            target,
            draft,
            arithmetic,
            setting,
            context,
            generated.len(),
            state,
            error,
        ))
        ||| rounds.len() > 0 && round_fails(
            target,
            draft,
            arithmetic,
            setting,
            rounds.last(),
            error,
        )
    }
    ||| (course.over)(generated) && has_read(
        target,
        vocabulary,
        prompt,
    ) && has_read(draft, vocabulary, prompt) && (rounds.len() > 0 && (rounds.last().replayed
        || rounds.last().tokens.len() == 0) ==> course.cancellable) && exists|reason: String| #[trigger]
        call_ensures(T::sync, (target,), Err(reason)) && error.0@
            == "speculative generation did not complete: "@ + reason@
}

/// A request whose random generator started with `start` breaks off.
pub open spec fn broke_off<
    T: SpeculativeModel,
    D: SpeculativeModel,
    A: SamplingArithmetic,
>(
    target: &T,
    draft: &D,
    arithmetic: &A,
    setting: Setting,
    prompt: Seq<i32>,
    course: Course,
    start: Seq<u8>,
    error: GenerationError,
) -> bool {
    exists|rounds: Seq<Round>| #[trigger]
        rounds_follow(target, draft, arithmetic, setting, prompt, start, rounds) && breaks_off(
            target,
            draft,
            arithmetic,
            setting,
            prompt,
            course,
            start,
            rounds,
            error,
        )
}

/// A request that breaks off on one course breaks off on any that goes on and is over wherever the
/// first one does.
pub(crate) proof fn lemma_wider_course<
    T: SpeculativeModel,
    D: SpeculativeModel,
    A: SamplingArithmetic,
>(
    target: &T,
    draft: &D,
    arithmetic: &A,
    setting: Setting,
    prompt: Seq<i32>,
    course: Course,
    wider: Course,
    start: Seq<u8>,
    error: GenerationError,
)
    requires
        broke_off(target, draft, arithmetic, setting, prompt, course, start, error),
        forall|generated: Seq<i32>| #[trigger]
            (course.going)(generated) ==> (wider.going)(generated),
        forall|generated: Seq<i32>| #[trigger]
            (course.over)(generated) ==> (wider.over)(generated),
        course.cancellable ==> wider.cancellable,
    ensures
        broke_off(target, draft, arithmetic, setting, prompt, wider, start, error),
{
    let rounds = choose|rounds: Seq<Round>| #[trigger]
        rounds_follow(target, draft, arithmetic, setting, prompt, start, rounds) && breaks_off(
            target,
            draft,
            arithmetic,
            setting,
            prompt,
            course,
            start,
            rounds,
            error,
        );
    assert(breaks_off(
        target,
        draft,
        arithmetic,
        setting,
        prompt,
        wider,
        start,
        rounds,
        error,
    ));
}

} // verus!
