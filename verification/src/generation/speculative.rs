//! Speculative decoding: a draft model proposes, the target model verifies.

use crate::generation::control::{
    lemma_patterns_not_empty, patterns_error, FlagReads, GenerationControl, GenerationEvent,
    GenerationFinishReason, StopSequenceMatcher,
};
use crate::generation::sampling::{config_error, usable, SamplingArithmetic, SamplingConfig};
use crate::generation::speculative::branch::{predicted, row_of, Branch, SpeculativeModel};
use crate::generation::speculative::failures::{
    block_unproposed, block_unread, breaks_off, broke_off, has_read, lemma_wider_course,
    lone_course, proposing_fails, reading_fails, replay_fails, watched_course, Course,
};
use crate::generation::speculative::rounds::{
    answers, block_complete, emitted, proposes, lemma_push_round, rounds_follow, state_after, tally,
    targets, Round, Setting,
};
use crate::generation::speculative::selection::{
    proposed, verification_fault, verified, weighable, Selection,
};
use crate::generation::{
    contains_token, copy_tokens, emit, ended, generation_error, going_on, lemma_cancel_ends,
    natural_end, over_with, shown, synced, tells, unended, validate_generation, CausalModelLimits,
    Ending, GenerationError, GreedyGenerationConfig, TokenGenerationOutput,
};
use crate::rng::chacha12_seeded;
use crate::text::text;
use std::ops::ControlFlow;
use vstd::prelude::*;
use vstd::slice::slice_subrange;

pub mod branch;
pub mod distribution;
pub mod draw_laws;
pub mod failures;
pub mod laws;
pub mod rounds;
pub mod selection;

verus! {

/// Batch-one speculation. Target and draft MUST use the same token-ID semantics;
/// equal vocabulary sizes alone do not establish tokenizer compatibility.
#[derive(Debug, Clone)]
pub struct SpeculativeGenerationConfig {
    pub max_new_tokens: usize,
    pub eos_token_ids: Vec<i32>,
    pub draft_tokens: usize,
    /// None selects greedy verification. Some applies the existing temperature,
    /// top-k and top-p policy to both models, with rejection-corrected sampling.
    pub sampling: Option<SamplingConfig>,
}

#[derive(Debug, Clone, PartialEq, Eq)]
pub struct SpeculativeStats {
    pub rounds: usize,
    pub proposed_tokens: usize,
    pub accepted_tokens: usize,
    pub rejected_blocks: usize,
    pub bonus_tokens: usize,
    pub target_block_forwards: usize,
    pub replayed_prefix_tokens: usize,
}

impl Default for SpeculativeStats {
    fn default() -> (stats: Self)
        ensures
            stats.count(Seq::empty()),
    {
        SpeculativeStats {
            rounds: 0,
            proposed_tokens: 0,
            accepted_tokens: 0,
            rejected_blocks: 0,
            bonus_tokens: 0,
            target_block_forwards: 0,
            replayed_prefix_tokens: 0,
        }
    }
}

impl SpeculativeStats {
    /// The numbers are what these rounds add up to.
    pub open spec fn count(self, rounds: Seq<Round>) -> bool {
        let sum = tally(rounds);
        &&& self.rounds == sum.rounds
        &&& self.proposed_tokens == sum.proposed
        &&& self.accepted_tokens == sum.accepted
        &&& self.rejected_blocks == sum.rejected
        &&& self.bonus_tokens == sum.bonus
        &&& self.target_block_forwards == sum.rounds
        &&& self.replayed_prefix_tokens == sum.replayed
    }
}

#[derive(Debug, Clone, PartialEq, Eq)]
pub struct SpeculativeGenerationOutput {
    pub output: TokenGenerationOutput,
    pub finish_reason: GenerationFinishReason,
    pub stats: SpeculativeStats,
}

/// Why a request is refused: the first fault that it has.
pub open spec fn speculation_error(
    target_limits: CausalModelLimits,
    draft_limits: CausalModelLimits,
    prompt: Seq<i32>,
    setting: Setting,
) -> Option<Seq<char>> {
    let max_new_tokens = setting.ending.max_new_tokens;
    let eos = setting.ending.eos;
    if generation_error(target_limits, prompt, max_new_tokens, eos) is Some {
        generation_error(target_limits, prompt, max_new_tokens, eos)
    } else if generation_error(draft_limits, prompt, max_new_tokens, eos) is Some {
        generation_error(draft_limits, prompt, max_new_tokens, eos)
    } else if setting.draft_tokens == 0 || target_limits.vocab_size != draft_limits.vocab_size {
        Some("speculation requires a positive draft length and matching vocabularies"@)
    } else if setting.sampling is Some && config_error(setting.sampling->0) is Some {
        config_error(setting.sampling->0)
    } else {
        patterns_error(setting.ending.patterns, target_limits.vocab_size)
    }
}

/// The random generator that a request starts with: seeded where the request has a seed.
pub open spec fn starts(sampling: Option<SamplingConfig>, start: Seq<u8>) -> bool {
    sampling matches Some(config) ==> (config.seed matches Some(seed) ==> start == chacha12_seeded(
        seed,
    ))
}

/// What a finished request returns: it has ended, its tokens are what rounds of proposing and
/// verifying emitted, and the numbers are what the rounds add up to. Tokens are read again at the
/// end only where a cancellation flag that reads as set ended the request after that.
pub open spec fn speculated<
    T: SpeculativeModel,
    D: SpeculativeModel,
    A: SamplingArithmetic,
    F: FnMut(GenerationEvent<'_>) -> ControlFlow<()>,
>(
    target: &T,
    draft: &D,
    arithmetic: &A,
    setting: Setting,
    prompt: Seq<i32>,
    flag: FlagReads,
    on_token: F,
    result: SpeculativeGenerationOutput,
) -> bool {
    &&& ended(prompt, setting.ending, flag, on_token, result.output, result.finish_reason)
    &&& exists|start: Seq<u8>, rounds: Seq<Round>| #[trigger]
        rounds_follow(target, draft, arithmetic, setting, prompt, start, rounds) && starts(
            setting.sampling,
            start,
        ) && emitted(rounds) == result.output.generated_token_ids@ && result.stats.count(rounds)
            && (rounds.len() > 0 && (rounds.last().replayed || rounds.last().tokens.len() == 0)
            ==> flag.set && result.finish_reason is Cancelled)
    &&& result.output.generated_token_ids@.len() > 0 || result.stats.rounds > 0 ==> synced(target)
}

/// An event that a request whose random generator started with `start` may show: it is for the last
/// of tokens that rounds of proposing and verifying emitted, so it never holds a candidate that
/// verification replaced.
pub open spec fn showable_from<
    T: SpeculativeModel,
    D: SpeculativeModel,
    A: SamplingArithmetic,
    F: FnMut(GenerationEvent<'_>) -> ControlFlow<()>,
>(
    target: &T,
    draft: &D,
    arithmetic: &A,
    setting: Setting,
    prompt: Seq<i32>,
    start: Seq<u8>,
    on_token: F,
    event: GenerationEvent<'_>,
) -> bool {
    exists|rounds: Seq<Round>| #[trigger]
        rounds_follow(target, draft, arithmetic, setting, prompt, start, rounds) && tells(
            on_token,
            setting.ending,
            emitted(rounds),
            event,
        )
}

/// One of the models, a choice or the device failed where a request on this course needed it, its
/// random generator seeded where it has a seed.
pub open spec fn speculation_failed<
    T: SpeculativeModel,
    D: SpeculativeModel,
    A: SamplingArithmetic,
>(
    target: &T,
    draft: &D,
    arithmetic: &A,
    setting: Setting,
    prompt: Seq<i32>,
    course: Course,
    error: GenerationError,
) -> bool {
    exists|start: Seq<u8>|
        starts(setting.sampling, start) && #[trigger] broke_off(
            target,
            draft,
            arithmetic,
            setting,
            prompt,
            course,
            start,
            error,
        )
}

/// What a request comes to: refused with the first fault that it has, finished, or broken off.
pub open spec fn speculation_outcome<
    T: SpeculativeModel,
    D: SpeculativeModel,
    A: SamplingArithmetic,
    F: FnMut(GenerationEvent<'_>) -> ControlFlow<()>,
>(
    target: &T,
    target_limits: CausalModelLimits,
    draft: &D,
    draft_limits: CausalModelLimits,
    arithmetic: &A,
    prompt: Seq<i32>,
    setting: Setting,
    flag: FlagReads,
    on_token: F,
    result: Result<SpeculativeGenerationOutput, GenerationError>,
) -> bool {
    let refused = speculation_error(target_limits, draft_limits, prompt, setting);
    match result {
        Ok(output) => refused is None && speculated(
            target,
            draft,
            arithmetic,
            setting,
            prompt,
            flag,
            on_token,
            output,
        ),
        Err(error) => match refused {
            Some(message) => error.0@ == message,
            None => speculation_failed(
                target,
                draft,
                arithmetic,
                setting,
                prompt,
                watched_course(prompt, setting.ending, flag, on_token),
                error,
            ),
        },
    }
}

impl SpeculativeGenerationConfig {
    /// What every round goes by.
    pub open spec fn setting(self, vocabulary: usize, patterns: Seq<Vec<i32>>) -> Setting {
        Setting {
            sampling: self.sampling,
            draft_tokens: self.draft_tokens,
            vocabulary,
            ending: Ending {
                max_new_tokens: self.max_new_tokens,
                eos: self.eos_token_ids@,
                patterns,
            },
        }
    }

    /// The number of proposed tokens can be counted.
    pub open spec fn countable(self) -> bool {
        self.max_new_tokens * if self.draft_tokens <= self.max_new_tokens {
            self.draft_tokens as int
        } else {
            self.max_new_tokens as int
        } <= usize::MAX
    }
}

/// A block of candidates.
struct Proposal {
    candidates: Vec<i32>,
    shares: Vec<Vec<u64>>,
    rows: Ghost<Seq<Seq<u32>>>,
    states: Ghost<Seq<Seq<u8>>>,
}

impl Proposal {
    /// Each candidate has a probability among those it was proposed with, and those are as many as
    /// the vocabulary has entries.
    spec fn fits(&self, setting: Setting) -> bool {
        forall|i: int|
            0 <= i < self.candidates@.len() ==> weighable(
                setting.sampling,
                #[trigger] self.candidates@[i],
                self.shares@[i]@,
            ) && (setting.sampling is Some ==> self.shares@[i]@.len() == setting.vocabulary)
    }
}

/// Propose up to `count` candidates; none where the request is cancelled meanwhile.
#[verifier::loop_isolation(false)]
fn propose_block<D: SpeculativeModel, A: SamplingArithmetic>(
    draft: &D,
    arithmetic: &A,
    branch: &mut Branch<D>,
    next: &mut Vec<u32>,
    selection: &mut Selection,
    count: usize,
    eos: &Vec<i32>,
    vocabulary: usize,
    control: &GenerationControl,
    Ghost(setting): Ghost<Setting>,
    Ghost(done): Ghost<nat>,
) -> (result: Result<Option<Proposal>, GenerationError>)
    requires
        old(branch).wf(draft),
        predicted(draft, vocabulary, old(branch).context(), old(next)@),
        old(next)@.len() == vocabulary,
        vocabulary > 0,
        setting.vocabulary == vocabulary,
        setting.sampling == old(selection).config,
        setting.ending.eos == eos@,
        setting.sampling is Some ==> usable(arithmetic),
        done < setting.ending.max_new_tokens,
        count > 0,
        count == if setting.draft_tokens <= setting.ending.max_new_tokens - done {
            setting.draft_tokens as int
        } else {
            setting.ending.max_new_tokens - done
        },
    ensures
        final(selection).config == old(selection).config,
        match result {
            Ok(Some(proposal)) => {
                &&& final(branch).wf(draft)
                &&& final(branch).context() == old(branch).context() + proposal.candidates@
                &&& predicted(draft, vocabulary, final(branch).context(), final(next)@)
                &&& final(next)@.len() == vocabulary
                &&& block_complete(setting, done, proposal.candidates@)
                &&& proposes(
                    draft,
                    arithmetic,
                    setting,
                    old(branch).context(),
                    proposal.candidates@,
                    proposal.rows@,
                    proposal.shares@,
                    proposal.states@,
                )
                &&& proposal.states@[0] == old(selection).state()
                &&& proposal.states@.last() == final(selection).state()
                &&& proposal.fits(setting)
                &&& control.reads(false)
            },
            Ok(None) => control.reads(true),
            Err(error) => block_unproposed(
                draft,
                arithmetic,
                setting,
                old(branch).context(),
                done,
                old(selection).state(),
                error,
            ),
        },
{
    let ghost context = branch.context();
    let mut candidates: Vec<i32> = Vec::with_capacity(count);
    let mut shares: Vec<Vec<u64>> = Vec::with_capacity(count);
    let ghost mut rows: Seq<Seq<u32>> = Seq::empty();
    let ghost mut states: Seq<Seq<u8>> = seq![selection.state()];
    let mut open = true;
    assert(context + candidates@ =~= context);
    while open && candidates.len() < count
        invariant
            branch.wf(draft),
            branch.context() == context + candidates@,
            predicted(draft, vocabulary, branch.context(), next@),
            next@.len() == vocabulary,
            selection.config == setting.sampling,
            candidates@.len() <= count,
            candidates@.len() > 0 ==> control.reads(false),
            proposes(
                draft,
                arithmetic,
                setting,
                context,
                candidates@,
                rows,
                shares@,
                states,
            ),
            states[0] == old(selection).state(),
            states.last() == selection.state(),
            forall|i: int|
                0 <= i < candidates@.len() ==> weighable(
                    setting.sampling,
                    #[trigger] candidates@[i],
                    shares@[i]@,
                ) && (setting.sampling is Some ==> shares@[i]@.len() == vocabulary),
            forall|i: int|
                0 <= i < candidates@.len() - 1 ==> !eos@.contains(#[trigger] candidates@[i]),
            open ==> candidates@.len() > 0 ==> !eos@.contains(candidates@.last()),
            !open ==> candidates@.len() > 0 && eos@.contains(candidates@.last()),
        decreases count - candidates@.len(),
    {
        if control.is_cancelled() {
            return Ok(None);
        }
        let ghost before = candidates@;
        let ghost shares_before = shares@;
        let ghost row = next@;
        let ghost state = selection.state();
        let (token, distribution) = match selection.propose(arithmetic, next) {
            Ok(proposal) => proposal,
            Err(error) => {
                assert(predicted(draft, setting.vocabulary, context + candidates@, row));
                assert(proposing_fails(
                    draft,
                    arithmetic,
                    setting,
                    context,
                    done,
                    candidates@,
                    error,
                ));
                return Err(error);
            },
        };
        candidates.push(token);
        shares.push(distribution);
        proof {
            let longer_rows = rows.push(row);
            let longer_states = states.push(selection.state());
            assert forall|i: int| #![trigger longer_rows[i]]
                0 <= i < candidates@.len() implies predicted(
                draft,
                setting.vocabulary,
                context + candidates@.take(i),
                longer_rows[i],
            ) && proposed(
                arithmetic,
                setting.sampling,
                longer_states[i],
                longer_rows[i],
                candidates@[i],
                shares@[i]@,
                longer_states[i + 1],
            ) by {
                if i < before.len() {
                    assert(candidates@.take(i) =~= before.take(i));
                    assert(rows[i] == longer_rows[i]);
                    assert(shares_before[i] == shares@[i]);
                } else {
                    assert(candidates@.take(i) =~= before);
                }
            }
            assert forall|i: int| 0 <= i < candidates@.len() implies weighable(
                setting.sampling,
                #[trigger] candidates@[i],
                shares@[i]@,
            ) && (setting.sampling is Some ==> shares@[i]@.len() == vocabulary) by {
                if i < before.len() {
                    assert(before[i] == candidates@[i]);
                    assert(shares_before[i] == shares@[i]);
                }
            }
            rows = longer_rows;
            states = longer_states;
            assert(proposes(
                draft,
                arithmetic,
                setting,
                context,
                candidates@,
                rows,
                shares@,
                states,
            ));
        }
        let input = vec![token];
        *next = match branch.next_row(draft, &input, vocabulary) {
            Ok(row) => row,
            Err(error) => {
                assert(candidates@.drop_last() =~= before);
                assert(input@ =~= seq![candidates@.last()]);
                assert(proposing_fails(
                    draft,
                    arithmetic,
                    setting,
                    context,
                    done,
                    candidates@,
                    error,
                ));
                return Err(error);
            },
        };
        assert(context + before + input@ =~= context + candidates@);
        if contains_token(eos, token) {
            open = false;
        }
    }
    assert(block_complete(setting, done, candidates@));
    let proposal = Proposal { candidates, shares, rows: Ghost(rows), states: Ghost(states) };
    assert(proposal.fits(setting));
    Ok(Some(proposal))
}

/// What verification made of a block.
struct Verdict {
    tokens: Vec<i32>,
    rejected: bool,
    finished: Option<GenerationFinishReason>,
    states: Ghost<Seq<Seq<u8>>>,
}

/// Verify a block and emit what comes of it, until a candidate is replaced or the request ends.
#[verifier::loop_isolation(false)]
#[verifier::rlimit(40)]
fn verify_block<T: SpeculativeModel, A: SamplingArithmetic, F: FnMut(GenerationEvent<'_>) -> ControlFlow<
    (),
>>(
    target: &T,
    arithmetic: &A,
    selection: &mut Selection,
    proposal: &Proposal,
    first: &Vec<u32>,
    rows: &Vec<u32>,
    vocabulary: usize,
    output: &mut TokenGenerationOutput,
    max_new_tokens: usize,
    eos: &Vec<i32>,
    matcher: &mut StopSequenceMatcher<'_>,
    control: &GenerationControl,
    on_token: &mut F,
    Ghost(prompt): Ghost<Seq<i32>>,
    Ghost(setting): Ghost<Setting>,
    Ghost(context): Ghost<Seq<i32>>,
    Ghost(target_rows): Ghost<Seq<Seq<u32>>>,
) -> (result: Result<Verdict, GenerationError>)
    requires
        setting.sampling == old(selection).config,
        setting.sampling is Some ==> usable(arithmetic),
        setting.vocabulary == vocabulary,
        setting.ending == (Ending { max_new_tokens, eos: eos@, patterns: old(matcher).patterns@ }),
        targets(target, setting, context, proposal.candidates@, target_rows),
        proposal.candidates@.len() > 0,
        proposal.shares@.len() == proposal.candidates@.len(),
        first@.len() == vocabulary,
        first@ == target_rows[0],
        rows@.len() == proposal.candidates@.len() * vocabulary,
        forall|j: int|
            0 <= j < proposal.candidates@.len() ==> #[trigger] target_rows[j + 1] == row_of(
                rows@,
                vocabulary,
                j,
            ),
        proposal.fits(setting),
        old(matcher).wf(),
        old(matcher).history@ == old(output).generated_token_ids@,
        forall|
            tokens: Seq<i32>,
            states: Seq<Seq<u8>>,
            rejected: bool,
            event: GenerationEvent<'_>,
        |
            #![trigger answers(
                arithmetic,
                setting,
                proposal.candidates@,
                proposal.shares@,
                target_rows,
                tokens,
                states,
                rejected,
            ), tells(
                *old(on_token),
                setting.ending,
                old(output).generated_token_ids@ + tokens,
                event,
            )]
            answers(
                arithmetic,
                setting,
                proposal.candidates@,
                proposal.shares@,
                target_rows,
                tokens,
                states,
                rejected,
            ) && states[0] == old(selection).state() && tells(
                *old(on_token),
                setting.ending,
                old(output).generated_token_ids@ + tokens,
                event,
            ) ==> call_requires(*old(on_token), (event,)),
        unended(prompt, setting.ending, control.flag(), *old(on_token), *old(output)),
    ensures
        final(selection).config == old(selection).config,
        *final(on_token) == *old(on_token),
        match result {
            Ok(verdict) => {
                &&& final(matcher).wf()
                &&& final(matcher).patterns@ == old(matcher).patterns@
                &&& final(matcher).history@ == final(output).generated_token_ids@
                &&& final(output).generated_token_ids@ == old(output).generated_token_ids@
                    + verdict.tokens@
                &&& verdict.tokens@.len() > 0
                &&& answers(
                    arithmetic,
                    setting,
                    proposal.candidates@,
                    proposal.shares@,
                    target_rows,
                    verdict.tokens@,
                    verdict.states@,
                    verdict.rejected,
                )
                &&& verdict.states@[0] == old(selection).state()
                &&& verdict.states@.last() == final(selection).state()
                &&& match verdict.finished {
                    None => unended(
                        prompt,
                        setting.ending,
                        control.flag(),
                        *old(on_token),
                        *final(output),
                    ) && (verdict.rejected || verdict.tokens@.len() == proposal.candidates@.len()),
                    Some(reason) => ended(
                        prompt,
                        setting.ending,
                        control.flag(),
                        *old(on_token),
                        *final(output),
                        reason,
                    ),
                }
            },
            Err(error) => exists|tokens: Seq<i32>, states: Seq<Seq<u8>>| #[trigger]
                answers(
                    arithmetic,
                    setting,
                    proposal.candidates@,
                    proposal.shares@,
                    target_rows,
                    tokens,
                    states,
                    false,
                ) && states[0] == old(selection).state() && tokens.len()
                    < proposal.candidates@.len() && going_on(
                    setting.ending,
                    control.flag(),
                    *old(on_token),
                    old(output).generated_token_ids@ + tokens,
                ) && verification_fault(
                    arithmetic,
                    setting.sampling,
                    states.last(),
                    proposal.candidates@[tokens.len() as int],
                    proposal.shares@[tokens.len() as int]@,
                    target_rows[tokens.len() as int],
                    error.0@,
                ),
        },
{
    let ghost callback = *on_token;
    let ghost candidates = proposal.candidates@;
    let ghost start = output.generated_token_ids@;
    let n: usize = proposal.candidates.len();
    // A length fits a machine integer.
    let _values: usize = rows.len();
    let mut tokens: Vec<i32> = Vec::with_capacity(n);
    let ghost mut states: Seq<Seq<u8>> = seq![selection.state()];
    let mut rejected = false;
    let mut finished: Option<GenerationFinishReason> = None;
    assert(start + tokens@ =~= start);
    while tokens.len() < n && !rejected && finished.is_none()
        invariant
            selection.config == setting.sampling,
            *on_token == callback,
            matcher.wf(),
            matcher.patterns@ == setting.ending.patterns,
            matcher.history@ == output.generated_token_ids@,
            output.generated_token_ids@ == start + tokens@,
            tokens@.len() <= n,
            rejected || finished is Some ==> tokens@.len() > 0,
            answers(
                arithmetic,
                setting,
                candidates,
                proposal.shares@,
                target_rows,
                tokens@,
                states,
                rejected,
            ),
            states[0] == old(selection).state(),
            states.last() == selection.state(),
            match finished {
                None => unended(prompt, setting.ending, control.flag(), callback, *output),
                Some(reason) => ended(
                    prompt,
                    setting.ending,
                    control.flag(),
                    callback,
                    *output,
                    reason,
                ),
            },
        decreases n - tokens@.len(),
    {
        let index: usize = tokens.len();
        let candidate: i32 = proposal.candidates[index];
        let logits: &[u32] = if index == 0 {
            first.as_slice()
        } else {
            proof {
                lemma_row_bounds(index - 1, n as int, vocabulary as int);
                assert(target_rows[index - 1 + 1] == row_of(rows@, vocabulary, index - 1));
            }
            slice_subrange(rows.as_slice(), (index - 1) * vocabulary, index * vocabulary)
        };
        assert(logits@ =~= target_rows[index as int]);
        let ghost before = tokens@;
        assert(predicted(
            target,
            setting.vocabulary,
            context + candidates.take(index as int),
            target_rows[index as int],
        ));
        assert(weighable(setting.sampling, candidates[index as int], proposal.shares@[index as int]@));
        let (token, accepted) = match selection.verify(
            arithmetic,
            candidate,
            &proposal.shares[index],
            logits,
        ) {
            Ok(answer) => answer,
            Err(error) => {
                assert(verification_fault(
                    arithmetic,
                    setting.sampling,
                    states.last(),
                    candidates[index as int],
                    proposal.shares@[index as int]@,
                    target_rows[index as int],
                    error.0@,
                ));
                return Err(error);
            },
        };
        if !accepted {
            rejected = true;
        }
        tokens.push(token);
        proof {
            let longer = states.push(selection.state());
            assert forall|i: int| #![trigger tokens@[i]]
                0 <= i < tokens@.len() implies verified(
                arithmetic,
                setting.sampling,
                longer[i],
                candidates[i],
                proposal.shares@[i]@,
                target_rows[i],
                tokens@[i],
                !(rejected && i == tokens@.len() - 1),
                longer[i + 1],
            ) by {
                if i < before.len() {
                    assert(before[i] == tokens@[i]);
                }
            }
            states = longer;
            assert forall|event: GenerationEvent<'_>| #[trigger]
                tells(
                    callback,
                    setting.ending,
                    output.generated_token_ids@.push(token),
                    event,
                ) implies call_requires(callback, (event,)) by {
                assert(output.generated_token_ids@.push(token) =~= start + tokens@);
                assert(tells(callback, setting.ending, start + tokens@, event));
                assert(answers(
                    arithmetic,
                    setting,
                    candidates,
                    proposal.shares@,
                    target_rows,
                    tokens@,
                    states,
                    rejected,
                ));
            }
        }
        finished = emit(
            token,
            output,
            max_new_tokens,
            eos,
            matcher,
            control,
            on_token,
            Ghost(prompt),
        );
        assert(output.generated_token_ids@ =~= start + tokens@);
    }
    Ok(Verdict { tokens, rejected, finished, states: Ghost(states) })
}

/// Row `j` of `n` rows lies within them.
proof fn lemma_row_bounds(j: int, n: int, width: int)
    requires
        0 <= j < n,
        0 <= width,
    ensures
        0 <= j * width <= (j + 1) * width <= n * width,
        (j + 1) * width - j * width == width,
{
    assert(0 <= j * width) by (nonlinear_arith)
        requires
            0 <= j,
            0 <= width,
    ;
    assert((j + 1) * width == j * width + width) by (nonlinear_arith);
    assert((j + 1) * width <= n * width) by (nonlinear_arith)
        requires
            j + 1 <= n,
            0 <= width,
    ;
}

/// Read tokens into both branches, one by one.
#[verifier::loop_isolation(false)]
fn replay<T: SpeculativeModel, D: SpeculativeModel>(
    target: &T,
    draft: &D,
    target_branch: &mut Branch<T>,
    draft_branch: &mut Branch<D>,
    target_next: &mut Vec<u32>,
    draft_next: &mut Vec<u32>,
    tokens: &Vec<i32>,
    vocabulary: usize,
) -> (result: Result<(), GenerationError>)
    requires
        vocabulary > 0,
        tokens@.len() > 0,
        old(target_branch).wf(target),
        old(draft_branch).wf(draft),
        old(draft_branch).context() == old(target_branch).context(),
    ensures
        match result {
            Ok(_) => {
                &&& final(target_branch).wf(target)
                &&& final(draft_branch).wf(draft)
                &&& final(target_branch).context() == old(target_branch).context() + tokens@
                &&& final(draft_branch).context() == old(draft_branch).context() + tokens@
                &&& final(target_next)@.len() == vocabulary
                &&& final(draft_next)@.len() == vocabulary
                &&& predicted(
                    target,
                    vocabulary,
                    final(target_branch).context(),
                    final(target_next)@,
                )
                &&& predicted(draft, vocabulary, final(draft_branch).context(), final(draft_next)@)
            },
            Err(error) => replay_fails(
                target,
                draft,
                vocabulary,
                old(target_branch).context(),
                tokens@,
                error,
            ),
        },
{
    let ghost target_context = target_branch.context();
    let ghost draft_context = draft_branch.context();
    let mut i: usize = 0;
    assert(target_context + tokens@.take(0) =~= target_context);
    assert(draft_context + tokens@.take(0) =~= draft_context);
    while i < tokens.len()
        invariant
            i <= tokens@.len(),
            target_branch.wf(target),
            draft_branch.wf(draft),
            target_branch.context() == target_context + tokens@.take(i as int),
            draft_branch.context() == draft_context + tokens@.take(i as int),
            i > 0 ==> target_next@.len() == vocabulary && draft_next@.len() == vocabulary
                && predicted(target, vocabulary, target_branch.context(), target_next@)
                && predicted(draft, vocabulary, draft_branch.context(), draft_next@),
        decreases tokens@.len() - i,
    {
        let input = vec![tokens[i]];
        assert(input@ =~= seq![tokens@[i as int]]);
        *target_next = match target_branch.next_row(target, &input, vocabulary) {
            Ok(row) => row,
            Err(error) => {
                assert(reading_fails(
                    target,
                    draft,
                    vocabulary,
                    target_context + tokens@.take(i as int),
                    seq![tokens@[i as int]],
                    error,
                ));
                return Err(error);
            },
        };
        *draft_next = match draft_branch.next_row(draft, &input, vocabulary) {
            Ok(row) => row,
            Err(error) => {
                assert(reading_fails(
                    target,
                    draft,
                    vocabulary,
                    target_context + tokens@.take(i as int),
                    seq![tokens@[i as int]],
                    error,
                ));
                return Err(error);
            },
        };
        proof {
            assert(target_context + tokens@.take(i as int) + input@ =~= target_context
                + tokens@.take(i + 1));
            assert(draft_context + tokens@.take(i as int) + input@ =~= draft_context + tokens@.take(
                i + 1,
            ));
        }
        i += 1;
    }
    assert(tokens@.take(i as int) =~= tokens@);
    Ok(())
}

/// A request under way.
struct Run<'a, T: SpeculativeModel, D: SpeculativeModel> {
    target_branch: Branch<T>,
    draft_branch: Branch<D>,
    target_next: Vec<u32>,
    draft_next: Vec<u32>,
    selection: Selection,
    matcher: StopSequenceMatcher<'a>,
    output: TokenGenerationOutput,
    stats: SpeculativeStats,
    start: Ghost<Seq<u8>>,
    rounds: Ghost<Seq<Round>>,
}

impl<'a, T: SpeculativeModel, D: SpeculativeModel> Run<'a, T, D> {
    /// The rounds so far account for the output.
    spec fn logged<A: SamplingArithmetic>(
        &self,
        target: &T,
        draft: &D,
        arithmetic: &A,
        setting: Setting,
        prompt: Seq<i32>,
    ) -> bool {
        &&& rounds_follow(target, draft, arithmetic, setting, prompt, self.start@, self.rounds@)
        &&& emitted(self.rounds@) == self.output.generated_token_ids@
        &&& self.stats.count(self.rounds@)
    }

    /// The models are ready for another round.
    spec fn ready<A: SamplingArithmetic, F: FnMut(GenerationEvent<'_>) -> ControlFlow<()>>(
        &self,
        target: &T,
        draft: &D,
        arithmetic: &A,
        setting: Setting,
        prompt: Seq<i32>,
        flag: FlagReads,
        on_token: F,
    ) -> bool {
        let generated = self.output.generated_token_ids@;
        let rounds = self.rounds@;
        &&& self.logged(target, draft, arithmetic, setting, prompt)
        &&& unended(prompt, setting.ending, flag, on_token, self.output)
        &&& self.matcher.wf()
        &&& self.matcher.patterns@ == setting.ending.patterns
        &&& self.matcher.history@ == generated
        &&& self.target_branch.wf(target)
        &&& self.draft_branch.wf(draft)
        &&& self.target_branch.context() == prompt + generated
        &&& self.draft_branch.context() == prompt + generated
        &&& self.target_next@.len() == setting.vocabulary
        &&& self.draft_next@.len() == setting.vocabulary
        &&& predicted(target, setting.vocabulary, prompt + generated, self.target_next@)
        &&& predicted(draft, setting.vocabulary, prompt + generated, self.draft_next@)
        &&& self.selection.config == setting.sampling
        &&& self.selection.state() == state_after(rounds, self.start@)
        &&& rounds.len() > 0 ==> rounds.last().complete()
        &&& self.stats.rounds <= generated.len()
        &&& self.stats.accepted_tokens + self.stats.rejected_blocks + self.stats.bonus_tokens
            <= generated.len()
        &&& self.stats.replayed_prefix_tokens <= generated.len()
        &&& self.stats.proposed_tokens <= generated.len() * block_cap(setting)
    }
}

/// The longest block.
spec fn block_cap(setting: Setting) -> int {
    if setting.draft_tokens <= setting.ending.max_new_tokens {
        setting.draft_tokens as int
    } else {
        setting.ending.max_new_tokens as int
    }
}

/// One round: propose a block, verify it, and make the models ready for the next one.
#[verifier::rlimit(60)]
fn run_round<
    'a,
    T: SpeculativeModel,
    D: SpeculativeModel,
    A: SamplingArithmetic,
    F: FnMut(GenerationEvent<'_>) -> ControlFlow<()>,
>(
    target: &T,
    draft: &D,
    arithmetic: &A,
    run: &mut Run<'a, T, D>,
    max_new_tokens: usize,
    draft_tokens: usize,
    vocabulary: usize,
    eos: &Vec<i32>,
    control: &GenerationControl,
    on_token: &mut F,
    Ghost(setting): Ghost<Setting>,
    Ghost(prompt): Ghost<Seq<i32>>,
) -> (result: Result<Option<GenerationFinishReason>, GenerationError>)
    requires
        old(run).ready(target, draft, arithmetic, setting, prompt, control.flag(), *old(on_token)),
        setting.sampling is Some ==> usable(arithmetic),
        forall|event: GenerationEvent<'_>| #[trigger]
            showable_from(
                target,
                draft,
                arithmetic,
                setting,
                prompt,
                old(run).start@,
                *old(on_token),
                event,
            ) ==> call_requires(*old(on_token), (event,)),
        setting.vocabulary == vocabulary,
        vocabulary > 0,
        setting.draft_tokens == draft_tokens,
        draft_tokens > 0,
        setting.ending.max_new_tokens == max_new_tokens,
        max_new_tokens < usize::MAX,
        setting.ending.eos == eos@,
        max_new_tokens * block_cap(setting) <= usize::MAX,
    ensures
        *final(on_token) == *old(on_token),
        match result {
            Ok(None) => final(run).ready(
                target,
                draft,
                arithmetic,
                setting,
                prompt,
                control.flag(),
                *old(on_token),
            ) && final(run).start == old(run).start && final(run).output.generated_token_ids@.len()
                > old(run).output.generated_token_ids@.len(),
            Ok(Some(reason)) => {
                let rounds = final(run).rounds@;
                &&& final(run).logged(target, draft, arithmetic, setting, prompt)
                &&& final(run).start == old(run).start
                &&& ended(
                    prompt,
                    setting.ending,
                    control.flag(),
                    *old(on_token),
                    final(run).output,
                    reason,
                )
                &&& rounds.len() > 0 && (rounds.last().replayed || rounds.last().tokens.len() == 0)
                    ==> control.reads(true) && reason is Cancelled
            },
            Err(error) => broke_off(
                target,
                draft,
                arithmetic,
                setting,
                prompt,
                watched_course(prompt, setting.ending, control.flag(), *old(on_token)),
                old(run).start@,
                error,
            ),
        },
{
    let ghost callback = *on_token;
    let ghost course = watched_course(prompt, setting.ending, control.flag(), callback);
    let ghost start = run.start@;
    let ghost rounds = run.rounds@;
    let ghost generated = run.output.generated_token_ids@;
    let ghost done = generated.len();
    let ghost context = prompt + generated;
    if control.is_cancelled() {
        proof {
            lemma_cancel_ends(prompt, setting.ending, control.flag(), callback, run.output);
        }
        return Ok(Some(GenerationFinishReason::Cancelled));
    }
    let remaining: usize = max_new_tokens - run.output.generated_token_ids.len();
    let count: usize = if draft_tokens <= remaining {
        draft_tokens
    } else {
        remaining
    };
    proof {
        assert((done + 1) * block_cap(setting) <= max_new_tokens * block_cap(setting))
            by (nonlinear_arith)
            requires
                done + 1 <= max_new_tokens,
                0 <= block_cap(setting),
        ;
        assert((done + 1) * block_cap(setting) == done * block_cap(setting) + block_cap(setting))
            by (nonlinear_arith);
    }
    let target_before = run.target_branch.fork(target);
    let draft_before = run.draft_branch.fork(draft);
    let proposal = match propose_block(
        draft,
        arithmetic,
        &mut run.draft_branch,
        &mut run.draft_next,
        &mut run.selection,
        count,
        eos,
        vocabulary,
        control,
        Ghost(setting),
        Ghost(done),
    ) {
        Ok(Some(proposal)) => proposal,
        Ok(None) => {
            proof {
                lemma_cancel_ends(prompt, setting.ending, control.flag(), callback, run.output);
            }
            return Ok(Some(GenerationFinishReason::Cancelled));
        },
        Err(error) => {
            assert(breaks_off(
                target,
                draft,
                arithmetic,
                setting,
                prompt,
                course,
                start,
                rounds,
                error,
            ));
            return Err(error);
        },
    };
    let ghost candidates = proposal.candidates@;
    let n: usize = proposal.candidates.len();
    let rows = match run.target_branch.block_rows(target, &proposal.candidates, vocabulary) {
        Ok(rows) => rows,
        Err(error) => {
            assert(has_read(draft, setting.vocabulary, context + candidates));
            assert(block_unread(
                target,
                draft,
                arithmetic,
                setting,
                context,
                done,
                state_after(rounds, start),
                error,
            ));
            assert(breaks_off(
                target,
                draft,
                arithmetic,
                setting,
                prompt,
                course,
                start,
                rounds,
                error,
            ));
            return Err(error);
        },
    };
    let ghost target_rows = Seq::new(
        (n + 1) as nat,
        |i: int|
            if i == 0 {
                run.target_next@
            } else {
                row_of(rows@, vocabulary, i - 1)
            },
    );
    proof {
        assert forall|i: int| 0 <= i <= candidates.len() implies predicted(
            target,
            setting.vocabulary,
            context + candidates.take(i),
            #[trigger] target_rows[i],
        ) by {
            if i == 0 {
                assert(context + candidates.take(0) =~= context);
            } else {
                assert(target_rows[i] == row_of(rows@, vocabulary, i - 1));
            }
        }
        assert(targets(target, setting, context, candidates, target_rows));
    }
    run.stats.rounds += 1;
    run.stats.target_block_forwards += 1;
    run.stats.proposed_tokens += n;
    let ghost opened = Round {
        context,
        candidates,
        draft_rows: proposal.rows@,
        shares: proposal.shares@,
        proposal_states: proposal.states@,
        target_rows,
        tokens: Seq::empty(),
        answer_states: seq![run.selection.state()],
        rejected: false,
        replayed: false,
    };
    if control.is_cancelled() {
        proof {
            lemma_push_round(
                target,
                draft,
                arithmetic,
                setting,
                prompt,
                start,
                rounds,
                opened,
            );
            lemma_cancel_ends(prompt, setting.ending, control.flag(), callback, run.output);
            assert(generated + opened.tokens =~= generated);
        }
        run.rounds = Ghost(rounds.push(opened));
        return Ok(Some(GenerationFinishReason::Cancelled));
    }
    proof {
        assert forall|
            tokens: Seq<i32>,
            states: Seq<Seq<u8>>,
            rejected: bool,
            event: GenerationEvent<'_>,
        |
            #![trigger answers(
                arithmetic,
                setting,
                candidates,
                proposal.shares@,
                target_rows,
                tokens,
                states,
                rejected,
            ), tells(callback, setting.ending, generated + tokens, event)]
            answers(
                arithmetic,
                setting,
                candidates,
                proposal.shares@,
                target_rows,
                tokens,
                states,
                rejected,
            ) && states[0] == run.selection.state() && tells(
                callback,
                setting.ending,
                generated + tokens,
                event,
            ) implies call_requires(callback, (event,)) by {
            let round = Round { tokens, answer_states: states, rejected, ..opened };
            lemma_push_round(target, draft, arithmetic, setting, prompt, start, rounds, round);
            assert(showable_from(
                target,
                draft,
                arithmetic,
                setting,
                prompt,
                start,
                callback,
                event,
            ));
        }
    }
    let verdict = match verify_block(
        target,
        arithmetic,
        &mut run.selection,
        &proposal,
        &run.target_next,
        &rows,
        vocabulary,
        &mut run.output,
        max_new_tokens,
        eos,
        &mut run.matcher,
        control,
        on_token,
        Ghost(prompt),
        Ghost(setting),
        Ghost(context),
        Ghost(target_rows),
    ) {
        Ok(verdict) => verdict,
        Err(error) => {
            proof {
                let (tokens, states) = choose|tokens: Seq<i32>, states: Seq<Seq<u8>>| #[trigger]
                    answers(
                        arithmetic,
                        setting,
                        candidates,
                        proposal.shares@,
                        target_rows,
                        tokens,
                        states,
                        false,
                    ) && states[0] == opened.answer_states[0] && tokens.len() < candidates.len()
                        && going_on(
                        setting.ending,
                        control.flag(),
                        callback,
                        generated + tokens,
                    ) && verification_fault(
                        arithmetic,
                        setting.sampling,
                        states.last(),
                        candidates[tokens.len() as int],
                        proposal.shares@[tokens.len() as int]@,
                        target_rows[tokens.len() as int],
                        error.0@,
                    );
                let round = Round { tokens, answer_states: states, ..opened };
                lemma_push_round(target, draft, arithmetic, setting, prompt, start, rounds, round);
                assert(breaks_off(
                    target,
                    draft,
                    arithmetic,
                    setting,
                    prompt,
                    course,
                    start,
                    rounds.push(round),
                    error,
                ));
            }
            return Err(error);
        },
    };
    let emitted_tokens: usize = verdict.tokens.len();
    if verdict.rejected {
        run.stats.accepted_tokens += emitted_tokens - 1;
        run.stats.rejected_blocks += 1;
    } else {
        run.stats.accepted_tokens += emitted_tokens;
    }
    let ghost answered = Round {
        tokens: verdict.tokens@,
        answer_states: verdict.states@,
        rejected: verdict.rejected,
        ..opened
    };
    if let Some(reason) = verdict.finished {
        proof {
            lemma_push_round(
                target,
                draft,
                arithmetic,
                setting,
                prompt,
                start,
                rounds,
                answered,
            );
        }
        run.rounds = Ghost(rounds.push(answered));
        return Ok(Some(reason));
    }
    if verdict.rejected {
        // Hybrid recurrent state cannot be cropped like attention KV. Restore
        // the pre-block branch, then replay ONLY the committed prefix and its
        // correction token. Rejected candidates never survive into the next round.
        run.target_branch = target_before;
        run.draft_branch = draft_before;
        run.stats.replayed_prefix_tokens += emitted_tokens;
        match replay(
            target,
            draft,
            &mut run.target_branch,
            &mut run.draft_branch,
            &mut run.target_next,
            &mut run.draft_next,
            &verdict.tokens,
            vocabulary,
        ) {
            Ok(_) => {},
            Err(error) => {
                proof {
                    lemma_push_round(
                        target,
                        draft,
                        arithmetic,
                        setting,
                        prompt,
                        start,
                        rounds,
                        answered,
                    );
                    assert(breaks_off(
                        target,
                        draft,
                        arithmetic,
                        setting,
                        prompt,
                        course,
                        start,
                        rounds.push(answered),
                        error,
                    ));
                }
                return Err(error);
            },
        }
        proof {
            let round = Round { replayed: true, ..answered };
            lemma_push_round(target, draft, arithmetic, setting, prompt, start, rounds, round);
            assert(context + verdict.tokens@ =~= prompt + run.output.generated_token_ids@);
        }
        run.rounds = Ghost(rounds.push(Round { replayed: true, ..answered }));
    } else {
        // Both live branches include the entire accepted block. The final
        // verification row is the bonus distribution, not the last candidate's.
        proof {
            lemma_row_bounds(n - 1, n as int, vocabulary as int);
        }
        let values: usize = rows.len();
        let logits = slice_subrange(rows.as_slice(), (n - 1) * vocabulary, values);
        assert(logits@ =~= target_rows[n as int]);
        assert(predicted(
            target,
            setting.vocabulary,
            context + candidates.take(n as int),
            target_rows[n as int],
        ));
        let (bonus, shares) = match run.selection.propose(arithmetic, logits) {
            Ok(proposal) => proposal,
            Err(error) => {
                proof {
                    lemma_push_round(
                        target,
                        draft,
                        arithmetic,
                        setting,
                        prompt,
                        start,
                        rounds,
                        answered,
                    );
                    assert(breaks_off(
                        target,
                        draft,
                        arithmetic,
                        setting,
                        prompt,
                        course,
                        start,
                        rounds.push(answered),
                        error,
                    ));
                }
                return Err(error);
            },
        };
        run.stats.bonus_tokens += 1;
        let ghost round = Round {
            tokens: verdict.tokens@.push(bonus),
            answer_states: verdict.states@.push(run.selection.state()),
            ..answered
        };
        proof {
            assert(round.tokens.drop_last() =~= verdict.tokens@);
            assert(round.answer_states.drop_last() =~= verdict.states@);
            assert(proposed(
                arithmetic,
                setting.sampling,
                round.answer_states[n as int],
                round.target_rows[n as int],
                round.tokens[n as int],
                shares@,
                round.answer_states[n + 1],
            ));
            lemma_push_round(target, draft, arithmetic, setting, prompt, start, rounds, round);
            assert(generated + verdict.tokens@.push(bonus) =~= (generated + verdict.tokens@).push(
                bonus,
            ));
        }
        run.rounds = Ghost(rounds.push(round));
        proof {
            assert forall|event: GenerationEvent<'_>| #[trigger]
                tells(
                    callback,
                    setting.ending,
                    run.output.generated_token_ids@.push(bonus),
                    event,
                ) implies call_requires(callback, (event,)) by {
                assert(emitted(rounds.push(round)) =~= run.output.generated_token_ids@.push(bonus));
                assert(showable_from(
                    target,
                    draft,
                    arithmetic,
                    setting,
                    prompt,
                    start,
                    callback,
                    event,
                ));
            }
        }
        if let Some(reason) = emit(
            bonus,
            &mut run.output,
            max_new_tokens,
            eos,
            &mut run.matcher,
            control,
            on_token,
            Ghost(prompt),
        ) {
            return Ok(Some(reason));
        }
        let input = vec![bonus];
        proof {
            assert forall|i: int| 0 <= i < n implies candidates[i] == #[trigger] verdict.tokens@[i] by {
            }
            assert(candidates =~= verdict.tokens@);
            assert(context + candidates + input@ =~= prompt + run.output.generated_token_ids@);
            assert(input@ =~= seq![round.tokens.last()]);
        }
        run.target_next = match run.target_branch.next_row(target, &input, vocabulary) {
            Ok(row) => row,
            Err(error) => {
                assert(breaks_off(
                    target,
                    draft,
                    arithmetic,
                    setting,
                    prompt,
                    course,
                    start,
                    rounds.push(round),
                    error,
                ));
                return Err(error);
            },
        };
        run.draft_next = match run.draft_branch.next_row(draft, &input, vocabulary) {
            Ok(row) => row,
            Err(error) => {
                assert(breaks_off(
                    target,
                    draft,
                    arithmetic,
                    setting,
                    prompt,
                    course,
                    start,
                    rounds.push(round),
                    error,
                ));
                return Err(error);
            },
        };
    }
    proof {
        let now = run.output.generated_token_ids@.len();
        assert((done + 1) * block_cap(setting) <= now * block_cap(setting)) by (nonlinear_arith)
            requires
                done + 1 <= now,
                0 <= block_cap(setting),
        ;
    }
    Ok(None)
}

/// Emits only verified tokens. EOS, stop sequences, length and callback/cancel
/// ordering follow ordinary generation. A callback never sees a rejected draft.
pub fn generate_causal_speculative_stream<
    T: SpeculativeModel,
    D: SpeculativeModel,
    A: SamplingArithmetic,
    F: FnMut(GenerationEvent<'_>) -> ControlFlow<()>,
>(
    target: &T,
    target_limits: &CausalModelLimits,
    draft: &D,
    draft_limits: &CausalModelLimits,
    prompt: &[i32],
    config: &SpeculativeGenerationConfig,
    control: &GenerationControl,
    arithmetic: &A,
    on_token: F,
) -> (result: Result<SpeculativeGenerationOutput, GenerationError>)
    requires
        speculation_error(
            *target_limits,
            *draft_limits,
            prompt@,
            config.setting(target_limits.vocab_size, control.stop_token_sequences@),
        ) is None ==> config.countable(),
        config.sampling is Some ==> usable(arithmetic),
        forall|start: Seq<u8>, event: GenerationEvent<'_>|
            starts(config.sampling, start) && #[trigger] showable_from(
                target,
                draft,
                arithmetic,
                config.setting(target_limits.vocab_size, control.stop_token_sequences@),
                prompt@,
                start,
                on_token,
                event,
            ) ==> call_requires(on_token, (event,)),
    ensures
        speculation_outcome(
            target,
            *target_limits,
            draft,
            *draft_limits,
            arithmetic,
            prompt@,
            config.setting(target_limits.vocab_size, control.stop_token_sequences@),
            control.flag(),
            on_token,
            result,
        ),
{
    let ghost setting = config.setting(
        target_limits.vocab_size,
        control.stop_token_sequences@,
    );
    let ordinary = GreedyGenerationConfig {
        max_new_tokens: config.max_new_tokens,
        eos_token_ids: copy_tokens(&config.eos_token_ids),
    };
    let eos = match validate_generation(target_limits, prompt, &ordinary) {
        Ok(eos) => eos,
        Err(error) => {
            return Err(error);
        },
    };
    match validate_generation(draft_limits, prompt, &ordinary) {
        Ok(_) => {},
        Err(error) => {
            return Err(error);
        },
    }
    if config.draft_tokens == 0 || target_limits.vocab_size != draft_limits.vocab_size {
        return Err(
            GenerationError(
                text("speculation requires a positive draft length and matching vocabularies"),
            ),
        );
    }
    if let Some(sampling) = config.sampling {
        match sampling.validate() {
            Ok(_) => {},
            Err(error) => {
                return Err(error);
            },
        }
    }
    match control.validate(target_limits.vocab_size) {
        Ok(_) => {},
        Err(error) => {
            return Err(error);
        },
    }
    let max_new_tokens: usize = config.max_new_tokens;
    let vocabulary: usize = target_limits.vocab_size;
    let output = TokenGenerationOutput {
        token_ids: copy_tokens(prompt),
        generated_token_ids: Vec::new(),
        stopped_on_eos: false,
    };
    assert(output.token_ids@ =~= prompt@ + output.generated_token_ids@);
    let cancelled = control.is_cancelled();
    if cancelled || max_new_tokens == 0 {
        let finish_reason = if cancelled {
            GenerationFinishReason::Cancelled
        } else {
            GenerationFinishReason::MaxNewTokens
        };
        let stats = SpeculativeStats::default();
        proof {
            let start = match config.sampling {
                Some(sampling) => match sampling.seed {
                    Some(seed) => chacha12_seeded(seed),
                    None => Seq::empty(),
                },
                None => Seq::empty(),
            };
            assert(starts(setting.sampling, start));
            assert(rounds_follow(
                target,
                draft,
                arithmetic,
                setting,
                prompt@,
                start,
                Seq::empty(),
            ));
        }
        return Ok(SpeculativeGenerationOutput { output, finish_reason, stats });
    }
    proof {
        lemma_patterns_not_empty(control.stop_token_sequences@, target_limits.vocab_size);
        assert(vocabulary > 0) by {
            crate::generation::control::lemma_first_inside(prompt@, vocabulary);
        }
    }
    let selection = Selection::new(config.sampling);
    let ghost start = selection.state();
    let ghost flag = control.flag();
    let ghost callback = on_token;
    let ghost course = watched_course(prompt@, setting.ending, flag, callback);
    let ghost none = Seq::<Round>::empty();
    assert(rounds_follow(target, draft, arithmetic, setting, prompt@, start, none));
    assert(emitted(none) =~= Seq::empty());
    assert(going_on(setting.ending, flag, callback, emitted(none)));
    let matcher = StopSequenceMatcher::new(&control.stop_token_sequences);
    assert(Seq::<i32>::empty() + prompt@ =~= prompt@);
    let mut target_branch = Branch::new(target);
    let mut draft_branch = Branch::new(draft);
    let target_next = match target_branch.next_row(target, prompt, vocabulary) {
        Ok(row) => row,
        Err(error) => {
            assert(reading_fails(
                target,
                draft,
                vocabulary,
                Seq::empty(),
                prompt@,
                error,
            ));
            assert(breaks_off(
                target,
                draft,
                arithmetic,
                setting,
                prompt@,
                course,
                start,
                none,
                error,
            ));
            assert(broke_off(
                target,
                draft,
                arithmetic,
                setting,
                prompt@,
                course,
                start,
                error,
            ));
            return Err(error);
        },
    };
    let draft_next = match draft_branch.next_row(draft, prompt, vocabulary) {
        Ok(row) => row,
        Err(error) => {
            assert(reading_fails(
                target,
                draft,
                vocabulary,
                Seq::empty(),
                prompt@,
                error,
            ));
            assert(breaks_off(
                target,
                draft,
                arithmetic,
                setting,
                prompt@,
                course,
                start,
                none,
                error,
            ));
            assert(broke_off(
                target,
                draft,
                arithmetic,
                setting,
                prompt@,
                course,
                start,
                error,
            ));
            return Err(error);
        },
    };
    assert(prompt@ + output.generated_token_ids@ =~= prompt@);
    let mut listener = on_token;
    let mut run = Run {
        target_branch,
        draft_branch,
        target_next,
        draft_next,
        selection,
        matcher,
        output,
        stats: SpeculativeStats::default(),
        start: Ghost(start),
        rounds: Ghost(Seq::empty()),
    };
    assert(run.ready(target, draft, arithmetic, setting, prompt@, control.flag(), callback));
    let mut finish_reason = GenerationFinishReason::Cancelled;
    let mut running = true;
    while running
        invariant
            listener == callback,
            callback == on_token,
            flag == control.flag(),
            course == watched_course(prompt@, setting.ending, flag, callback),
            has_read(target, vocabulary, prompt@),
            has_read(draft, vocabulary, prompt@),
            run.start@ == start,
            starts(setting.sampling, start),
            setting.sampling is Some ==> usable(arithmetic),
            forall|event: GenerationEvent<'_>| #[trigger]
                showable_from(
                    target,
                    draft,
                    arithmetic,
                    setting,
                    prompt@,
                    start,
                    callback,
                    event,
                ) ==> call_requires(callback, (event,)),
            setting == config.setting(vocabulary, control.stop_token_sequences@),
            vocabulary > 0,
            vocabulary == target_limits.vocab_size,
            config.draft_tokens > 0,
            0 < max_new_tokens < usize::MAX,
            max_new_tokens == config.max_new_tokens,
            setting.ending.eos == eos@,
            max_new_tokens * block_cap(setting) <= usize::MAX,
            speculation_error(*target_limits, *draft_limits, prompt@, setting) is None,
            running ==> run.ready(target, draft, arithmetic, setting, prompt@, control.flag(), callback),
            !running ==> {
                let rounds = run.rounds@;
                &&& run.logged(target, draft, arithmetic, setting, prompt@)
                &&& ended(
                    prompt@,
                    setting.ending,
                    control.flag(),
                    callback,
                    run.output,
                    finish_reason,
                )
                &&& rounds.len() > 0 && (rounds.last().replayed || rounds.last().tokens.len() == 0)
                    ==> control.reads(true) && finish_reason is Cancelled
            },
        decreases
                if running {
                    1 + max_new_tokens - run.output.generated_token_ids@.len()
                } else {
                    0
                },
    {
        match run_round(
            target,
            draft,
            arithmetic,
            &mut run,
            max_new_tokens,
            config.draft_tokens,
            vocabulary,
            &eos,
            control,
            &mut listener,
            Ghost(setting),
            Ghost(prompt@),
        ) {
            Ok(Some(reason)) => {
                finish_reason = reason;
                running = false;
            },
            Ok(None) => {},
            Err(error) => {
                return Err(error);
            },
        }
    }
    let answer = target.sync();
    let ghost told = answer;
    assert(call_ensures(T::sync, (target,), told));
    match answer {
        Ok(_) => {
            assert(told is Ok);
        },
        Err(reason) => {
            let mut message = text("speculative generation did not complete: ");
            message.append(reason.as_str());
            let error = GenerationError(message);
            proof {
                assert(over_with(
                    prompt@,
                    setting.ending,
                    flag,
                    callback,
                    emitted(run.rounds@),
                ));
                assert(breaks_off(
                    target,
                    draft,
                    arithmetic,
                    setting,
                    prompt@,
                    course,
                    start,
                    run.rounds@,
                    error,
                ));
                assert(broke_off(
                    target,
                    draft,
                    arithmetic,
                    setting,
                    prompt@,
                    course,
                    start,
                    error,
                ));
            }
            return Err(error);
        },
    }
    Ok(SpeculativeGenerationOutput { output: run.output, finish_reason, stats: run.stats })
}

/// Speculate without stop sequences, callback or cancellation flag.
pub fn generate_causal_speculative<T: SpeculativeModel, D: SpeculativeModel, A: SamplingArithmetic>(
    target: &T,
    target_limits: &CausalModelLimits,
    draft: &D,
    draft_limits: &CausalModelLimits,
    prompt: &[i32],
    config: &SpeculativeGenerationConfig,
    arithmetic: &A,
) -> (result: Result<SpeculativeGenerationOutput, GenerationError>)
    requires
        speculation_error(
            *target_limits,
            *draft_limits,
            prompt@,
            config.setting(target_limits.vocab_size, Seq::empty()),
        ) is None ==> config.countable(),
        config.sampling is Some ==> usable(arithmetic),
    ensures
        ({
            let setting = config.setting(target_limits.vocab_size, Seq::empty());
            let refused = speculation_error(*target_limits, *draft_limits, prompt@, setting);
            match result {
                Ok(output) => {
                    let generated = output.output.generated_token_ids@;
                    &&& refused is None
                    &&& output.output.token_ids@ == prompt@ + generated
                    &&& output.output.stopped_on_eos == (generated.len() > 0
                        && config.eos_token_ids@.contains(generated.last()))
                    &&& forall|k: int|
                        1 <= k < generated.len() ==> natural_end(
                            setting.ending,
                            #[trigger] generated.take(k),
                        ) is None
                    &&& if config.max_new_tokens == 0 {
                        generated.len() == 0 && output.finish_reason is MaxNewTokens
                    } else {
                        0 < generated.len() <= config.max_new_tokens && natural_end(
                            setting.ending,
                            generated,
                        ) == Some(output.finish_reason)
                    }
                    &&& generated.len() > 0 ==> synced(target)
                    &&& exists|start: Seq<u8>, rounds: Seq<Round>| #[trigger]
                        rounds_follow(
                            target,
                            draft,
                            arithmetic,
                            setting,
                            prompt@,
                            start,
                            rounds,
                        ) && starts(config.sampling, start) && emitted(rounds) == generated
                            && output.stats.count(rounds)
                },
                Err(error) => match refused {
                    Some(message) => error.0@ == message,
                    None => speculation_failed(
                        target,
                        draft,
                        arithmetic,
                        setting,
                        prompt@,
                        lone_course(setting.ending),
                        error,
                    ),
                },
            }
        }),
{
    let control = GenerationControl::default();
    assert(control.stop_token_sequences@ =~= Seq::empty());
    let on_token = |event: GenerationEvent<'_>| -> (answer: ControlFlow<()>)
        ensures
            answer is Continue,
        { ControlFlow::Continue(()) };
    let result = generate_causal_speculative_stream(
        target,
        target_limits,
        draft,
        draft_limits,
        prompt,
        config,
        &control,
        arithmetic,
        on_token,
    );
    proof {
        let setting = config.setting(target_limits.vocab_size, Seq::empty());
        let refused = speculation_error(*target_limits, *draft_limits, prompt@, setting);
        if result is Ok {
            let generated = (result->Ok_0).output.generated_token_ids@;
            if generated.len() > 0 {
                assert(!shown(on_token, setting.ending, generated, generated.len() - 1, true));
            }
        } else if refused is None {
            let error = result->Err_0;
            let course = watched_course(prompt@, setting.ending, control.flag(), on_token);
            let lone = lone_course(setting.ending);
            let start = choose|start: Seq<u8>|
                starts(setting.sampling, start) && #[trigger] broke_off(
                    target,
                    draft,
                    arithmetic,
                    setting,
                    prompt@,
                    course,
                    start,
                    error,
                );
            assert forall|generated: Seq<i32>| #[trigger]
                (course.over)(generated) implies (lone.over)(generated) by {
                if generated.len() > 0 {
                    assert(!shown(on_token, setting.ending, generated, generated.len() - 1, true));
                }
            }
            lemma_wider_course(
                target,
                draft,
                arithmetic,
                setting,
                prompt@,
                course,
                lone,
                start,
                error,
            );
        }
    }
    result
}

} // verus!
