//! Autoregressive decoding of one request: validation, the cached prefill/decode loop and what
//! ends it.

use crate::generation::control::{
    find_outside, first_outside, in_vocabulary, lemma_patterns_not_empty, ends_with, patterns_error,
    stops_at, ControlledGenerationOutput, FlagReads, GenerationControl, GenerationEvent,
    GenerationFinishReason, StopSequenceMatcher,
};
use crate::generation::laws::law_watching_changes_nothing;
use crate::generation::sampling::{
    config_error, fill_error, sampled, usable, SamplerModel, SamplingArithmetic, SamplingConfig,
    SamplingGenerationConfig, TokenSampler,
};
use crate::llama::LlamaConfig;
use crate::logits::{greedy_outcome, greedy_token, shape_message, shape_text, single_row, LogitBlock};
use crate::rng::{after_draw, chacha12_seeded};
use crate::text::{decimal, push_number, push_signed, signed_decimal, text, with_numbers};
use std::ops::ControlFlow;
use vstd::prelude::*;

pub mod control;
pub mod endings;
pub mod laws;
pub mod sampling;
pub mod speculative;
pub mod variants;

verus! {

/// Deterministic autoregressive decoding options. Sampling is deliberately not
/// hidden behind this type: each step selects the exact maximum logit.
#[derive(Debug, PartialEq, Eq)]
pub struct GreedyGenerationConfig {
    pub max_new_tokens: usize,
    pub eos_token_ids: Vec<i32>,
}

impl Default for GreedyGenerationConfig {
    fn default() -> (config: Self)
        ensures
            config.max_new_tokens == 32,
            config.eos_token_ids@.len() == 0,
    {
        GreedyGenerationConfig { max_new_tokens: 32, eos_token_ids: Vec::new() }
    }
}

impl Clone for GreedyGenerationConfig {
    fn clone(&self) -> (copy: Self)
        ensures
            copy.max_new_tokens == self.max_new_tokens,
            copy.eos_token_ids@ == self.eos_token_ids@,
    {
        GreedyGenerationConfig {
            max_new_tokens: self.max_new_tokens,
            eos_token_ids: copy_tokens(&self.eos_token_ids),
        }
    }
}

#[derive(Debug, Clone, PartialEq, Eq)]
pub struct TokenGenerationOutput {
    /// Prompt followed by every generated token.
    pub token_ids: Vec<i32>,
    /// Only the tokens produced by the decoder.
    pub generated_token_ids: Vec<i32>,
    pub stopped_on_eos: bool,
}

/// What a failed generation reports.
#[derive(Debug, Clone, PartialEq, Eq)]
pub struct GenerationError(pub String);

impl GenerationError {
    /// The message.
    pub fn to_string(&self) -> (message: String)
        ensures
            message@ == self.0@,
    {
        self.0.clone()
    }
}

#[derive(Debug, Clone, Copy, PartialEq, Eq, Structural)]
pub struct CausalModelLimits {
    pub vocab_size: usize,
    pub max_sequence_length: usize,
}

/// A copy of a token list.
pub fn copy_tokens(tokens: &[i32]) -> (copy: Vec<i32>)
    ensures
        copy@ == tokens@,
{
    let mut copy: Vec<i32> = Vec::with_capacity(tokens.len());
    let mut i: usize = 0;
    while i < tokens.len()
        invariant
            i <= tokens@.len(),
            copy@ == tokens@.take(i as int),
        decreases tokens@.len() - i,
    {
        copy.push(tokens[i]);
        i += 1;
        assert(copy@ =~= tokens@.take(i as int));
    }
    assert(copy@ =~= tokens@);
    copy
}

/// Whether a token list holds a token.
pub fn contains_token(tokens: &[i32], token: i32) -> (found: bool)
    ensures
        found == tokens@.contains(token),
{
    let mut i: usize = 0;
    while i < tokens.len()
        invariant
            i <= tokens@.len(),
            forall|j: int| 0 <= j < i ==> #[trigger] tokens@[j] != token,
        decreases tokens@.len() - i,
    {
        if tokens[i] == token {
            assert(tokens@[i as int] == token);
            return true;
        }
        i += 1;
    }
    false
}

/// The least token that is outside the vocabulary.
pub open spec fn least_outside(tokens: Seq<i32>, vocab_size: usize) -> Option<i32>
    decreases tokens.len(),
{
    if tokens.len() == 0 {
        None
    } else {
        let last = tokens.last();
        match least_outside(tokens.drop_last(), vocab_size) {
            Some(token) => if !in_vocabulary(last, vocab_size) && last < token {
                Some(last)
            } else {
                Some(token)
            },
            None => if in_vocabulary(last, vocab_size) {
                None
            } else {
                Some(last)
            },
        }
    }
}

fn find_least_outside(tokens: &[i32], vocab_size: usize) -> (found: Option<i32>)
    ensures
        found == least_outside(tokens@, vocab_size),
{
    let mut found: Option<i32> = None;
    let mut i: usize = 0;
    assert(tokens@.take(0) =~= Seq::empty());
    while i < tokens.len()
        invariant
            i <= tokens@.len(),
            found == least_outside(tokens@.take(i as int), vocab_size),
        decreases tokens@.len() - i,
    {
        let token: i32 = tokens[i];
        assert(tokens@.take(i + 1).drop_last() =~= tokens@.take(i as int));
        if token < 0 || token as usize >= vocab_size {
            found = match found {
                Some(least) => if token < least {
                    Some(token)
                } else {
                    Some(least)
                },
                None => Some(token),
            };
        }
        i += 1;
    }
    assert(tokens@.take(i as int) =~= tokens@);
    found
}

/// The message for a token that a vocabulary does not have.
pub open spec fn outside_message(kind: Seq<char>, token: i32, vocab_size: usize) -> Seq<char> {
    kind + signed_decimal(token as int) + " is outside vocabulary [0, "@ + decimal(
        vocab_size as nat,
    ) + ")"@
}

/// Why a request is refused.
pub open spec fn generation_error(
    limits: CausalModelLimits,
    prompt: Seq<i32>,
    max_new_tokens: usize,
    eos: Seq<i32>,
) -> Option<Seq<char>> {
    if prompt.len() == 0 {
        Some("greedy generation requires at least one prompt token"@)
    } else if first_outside(prompt, limits.vocab_size) is Some {
        Some(
            outside_message(
                "prompt token "@,
                first_outside(prompt, limits.vocab_size)->0,
                limits.vocab_size,
            ),
        )
    } else if prompt.len() + max_new_tokens > usize::MAX {
        Some("generation length overflow"@)
    } else if prompt.len() + max_new_tokens > limits.max_sequence_length {
        Some(
            "prompt plus max_new_tokens ("@ + decimal((prompt.len() + max_new_tokens) as nat)
                + ") exceeds model capacity "@ + decimal(limits.max_sequence_length as nat) + ""@,
        )
    } else if least_outside(eos, limits.vocab_size) is Some {
        Some(
            outside_message(
                "EOS token "@,
                least_outside(eos, limits.vocab_size)->0,
                limits.vocab_size,
            ),
        )
    } else {
        None
    }
}

fn outside_error(kind: &str, token: i32, vocab_size: usize) -> (error: GenerationError)
    ensures
        error.0@ == outside_message(kind@, token, vocab_size),
{
    let mut message = text(kind);
    push_signed(&mut message, token as i64);
    message.append(" is outside vocabulary [0, ");
    push_number(&mut message, vocab_size as u64);
    message.append(")");
    GenerationError(message)
}

/// Check a request against the limits of a model; the tokens that end it come back.
pub fn validate_generation(
    limits: &CausalModelLimits,
    prompt_token_ids: &[i32],
    generation: &GreedyGenerationConfig,
) -> (result: Result<Vec<i32>, GenerationError>)
    ensures
        match (
            result,
            generation_error(
                *limits,
                prompt_token_ids@,
                generation.max_new_tokens,
                generation.eos_token_ids@,
            ),
        ) {
            (Ok(eos), None) => eos@ == generation.eos_token_ids@,
            (Err(error), Some(message)) => error.0@ == message,
            _ => false,
        },
{
    if prompt_token_ids.len() == 0 {
        return Err(GenerationError(text("greedy generation requires at least one prompt token")));
    }
    if let Some(token) = find_outside(prompt_token_ids, limits.vocab_size) {
        return Err(outside_error("prompt token ", token, limits.vocab_size));
    }
    let requested_length: usize = match prompt_token_ids.len().checked_add(
        generation.max_new_tokens,
    ) {
        Some(length) => length,
        None => {
            return Err(GenerationError(text("generation length overflow")));
        },
    };
    if requested_length > limits.max_sequence_length {
        return Err(
            GenerationError(
                with_numbers(
                    "prompt plus max_new_tokens (",
                    requested_length as u64,
                    ") exceeds model capacity ",
                    limits.max_sequence_length as u64,
                    "",
                ),
            ),
        );
    }
    if let Some(token) = find_least_outside(&generation.eos_token_ids, limits.vocab_size) {
        return Err(outside_error("EOS token ", token, limits.vocab_size));
    }
    Ok(copy_tokens(&generation.eos_token_ids))
}

/// A model that decodes one request with a cache.
///
/// Forward passes run outside of this crate, and what they return is not claimed to be a function
/// of the inputs; `advances` stands for whatever a pass may do.
pub trait CausalModel {
    type Cache;

    /// A pass over `tokens` may take the cache from `before` to `after` and end with `result`. A
    /// model that says nothing of its passes may do anything.
    open spec fn advances(
        &self,
        tokens: Seq<i32>,
        before: Self::Cache,
        after: Self::Cache,
        result: Result<LogitBlock, GenerationError>,
    ) -> bool {
        true
    }

    fn new_cache(&self) -> Self::Cache;

    fn forward_cached_last(&self, tokens: &[i32], cache: &mut Self::Cache) -> (logits: LogitBlock)
        ensures
            self.advances(tokens@, *old(cache), *final(cache), Ok(logits)),
    ;

    /// Fallible execution used by generation. Existing infallible implementations remain valid.
    fn try_forward_cached_last(&self, tokens: &[i32], cache: &mut Self::Cache) -> (result: Result<
        LogitBlock,
        GenerationError,
    >)
        ensures
            self.advances(tokens@, *old(cache), *final(cache), result),
    {
        Ok(self.forward_cached_last(tokens, cache))
    }

    fn greedy_token(&self, logits: &LogitBlock) -> (result: Result<i32, GenerationError>)
        default_ensures
            greedy_outcome(logits@, result),
    {
        greedy_token(logits)
    }

    /// Wait until the device has finished what was submitted to it.
    fn sync(&self) -> Result<(), String>;
}

/// How the next token is chosen.
#[derive(Debug)]
pub enum TokenSelector {
    Greedy,
    Sampled(TokenSampler),
}

impl View for TokenSelector {
    type V = Option<SamplerModel>;

    open spec fn view(&self) -> Option<SamplerModel> {
        match self {
            TokenSelector::Greedy => None,
            TokenSelector::Sampled(sampler) => Some(sampler@),
        }
    }
}

/// Choosing a token from a block may end with `result` and take the selector from `before` to
/// `after`.
pub open spec fn selected<M: CausalModel, A: SamplingArithmetic>(
    model: &M,
    arithmetic: &A,
    before: Option<SamplerModel>,
    block: LogitBlock,
    result: Result<i32, GenerationError>,
    after: Option<SamplerModel>,
) -> bool {
    match before {
        None => after == before && call_ensures(M::greedy_token, (model, &block), result),
        Some(sampler) => if !single_row(block@) {
            after == before && (result matches Err(error) && error.0@ == shape_message(block@))
        } else {
            match fill_error(sampler.config, block@.last_row()) {
                Some(message) => after == before && (result matches Err(error) && error.0@
                    == message),
                None => after == Some(
                    SamplerModel { config: sampler.config, state: after_draw(sampler.state) },
                ) && result is Ok && exists|row: &[u32]|
                    row@ == block@.last_row() && #[trigger] sampled(
                        arithmetic,
                        sampler,
                        row,
                        result->Ok_0,
                    ),
            }
        },
    }
}

/// The logits at the last position, where a block answers for the next token of one request.
pub fn read_last_logits(logits: &LogitBlock) -> (result: Result<Vec<u32>, GenerationError>)
    ensures
        match result {
            Ok(row) => single_row(logits@) && row@ == logits@.last_row(),
            Err(error) => !single_row(logits@) && error.0@ == shape_message(logits@),
        },
{
    if logits.batch() != 1 || logits.sequence() == 0 || logits.vocabulary() == 0 {
        return Err(GenerationError(shape_text(logits)));
    }
    Ok(logits.copy_last_row())
}

impl TokenSelector {
    pub fn select<M: CausalModel, A: SamplingArithmetic>(
        &mut self,
        model: &M,
        arithmetic: &A,
        logits: &LogitBlock,
    ) -> (result: Result<i32, GenerationError>)
        requires
            old(self)@ is Some ==> usable(arithmetic),
        ensures
            selected(model, arithmetic, old(self)@, *logits, result, final(self)@),
    {
        match self {
            TokenSelector::Greedy => model.greedy_token(logits),
            TokenSelector::Sampled(sampler) => match read_last_logits(logits) {
                Ok(row) => {
                    sampler.sample(arithmetic, &row)
                },
                Err(error) => Err(error),
            },
        }
    }
}

/// The first stop pattern that a history ends with.
pub open spec fn first_stop(patterns: Seq<Vec<i32>>, history: Seq<i32>) -> Option<usize>
    decreases patterns.len(),
{
    if patterns.len() == 0 {
        None
    } else {
        match first_stop(patterns.drop_last(), history) {
            Some(index) => Some(index),
            None => if ends_with(history, patterns.last()@) {
                Some((patterns.len() - 1) as usize)
            } else {
                None
            },
        }
    }
}

/// What a stop matcher finds is the first stop pattern.
proof fn lemma_first_stop(patterns: Seq<Vec<i32>>, history: Seq<i32>, found: Option<usize>)
    requires
        stops_at(patterns, history, found),
        patterns.len() <= usize::MAX,
    ensures
        found == first_stop(patterns, history),
    decreases patterns.len(),
{
    if patterns.len() > 0 {
        let rest = patterns.drop_last();
        assert forall|j: int| 0 <= j < rest.len() implies rest[j] == #[trigger] patterns[j] by {}
        if found == Some((patterns.len() - 1) as usize) {
            assert forall|j: int| 0 <= j < rest.len() implies !ends_with(
                history,
                (#[trigger] rest[j])@,
            ) by {
                assert(patterns[j] == rest[j]);
            }
            lemma_first_stop(rest, history, None);
        } else {
            match found {
                Some(index) => {
                    assert(rest[index as int] == patterns[index as int]);
                    assert forall|j: int| 0 <= j < index implies !ends_with(
                        history,
                        (#[trigger] rest[j])@,
                    ) by {
                        assert(patterns[j] == rest[j]);
                    }
                },
                None => {
                    assert forall|j: int| 0 <= j < rest.len() implies !ends_with(
                        history,
                        (#[trigger] rest[j])@,
                    ) by {
                        assert(patterns[j] == rest[j]);
                    }
                    assert(!ends_with(history, patterns[patterns.len() - 1]@));
                },
            }
            lemma_first_stop(rest, history, found);
        }
    }
}

/// What ends a request: its limit, the tokens that end it and the stop patterns.
#[verifier::ext_equal]
pub struct Ending {
    pub max_new_tokens: usize,
    pub eos: Seq<i32>,
    pub patterns: Seq<Vec<i32>>,
}

/// Why a request ends with the last of the tokens generated so far, if it does.
pub open spec fn natural_end(ending: Ending, generated: Seq<i32>) -> Option<GenerationFinishReason> {
    if ending.eos.contains(generated.last()) {
        Some(GenerationFinishReason::EosToken(generated.last()))
    } else if first_stop(ending.patterns, generated) is Some {
        Some(GenerationFinishReason::StopSequence(first_stop(ending.patterns, generated)->0))
    } else if generated.len() == ending.max_new_tokens {
        Some(GenerationFinishReason::MaxNewTokens)
    } else {
        None
    }
}

/// `on_token` was shown token `i` with the tokens up to it and what ends there, and asked to stop
/// or not.
pub open spec fn shown<F: FnMut(GenerationEvent<'_>) -> ControlFlow<()>>(
    on_token: F,
    ending: Ending,
    generated: Seq<i32>,
    i: int,
    stop: bool,
) -> bool {
    exists|event: GenerationEvent<'_>, response: ControlFlow<()>|
        #![trigger call_ensures(on_token, (event,), response)]
        event.token_id == generated[i] && event.generated_token_ids@ == generated.take(i + 1)
            && event.finish_reason == natural_end(ending, generated.take(i + 1)) && call_ensures(
            on_token,
            (event,),
            response,
        ) && stop == (response is Break)
}

/// An event for the last of some tokens: it shows all of them and what ends with the last, and it
/// comes after every earlier token was shown, ended nothing and was answered to go on.
pub open spec fn tells<F: FnMut(GenerationEvent<'_>) -> ControlFlow<()>>(
    on_token: F,
    ending: Ending,
    generated: Seq<i32>,
    event: GenerationEvent<'_>,
) -> bool {
    &&& generated.len() > 0
    &&& event.token_id == generated.last()
    &&& event.generated_token_ids@ == generated
    &&& event.finish_reason == natural_end(ending, generated)
    &&& forall|k: int|
        1 <= k < generated.len() ==> natural_end(ending, #[trigger] generated.take(k)) is None
    &&& forall|i: int|
        0 <= i < generated.len() - 1 ==> #[trigger] shown(on_token, ending, generated, i, false)
}

/// An event that a request may show: it is for the last of tokens that the model generated.
pub open spec fn showable<M: CausalModel, A: SamplingArithmetic, F: FnMut(
    GenerationEvent<'_>,
) -> ControlFlow<()>>(
    model: &M,
    arithmetic: &A,
    selector: Option<SamplerModel>,
    prompt: Seq<i32>,
    ending: Ending,
    on_token: F,
    event: GenerationEvent<'_>,
) -> bool {
    exists|trace: DecodeTrace<M::Cache>| #[trigger]
        decodes(model, arithmetic, selector, prompt, trace) && tells(
            on_token,
            ending,
            trace.tokens,
            event,
        )
}

/// Tokens after which generation goes on, as far as the tokens decide.
pub open spec fn open_ended(ending: Ending, generated: Seq<i32>) -> bool {
    &&& generated.len() < ending.max_new_tokens
    &&& forall|k: int|
        1 <= k <= generated.len() ==> natural_end(ending, #[trigger] generated.take(k)) is None
}

/// Tokens that end generation with the last of them.
pub open spec fn closed_by(ending: Ending, generated: Seq<i32>) -> bool {
    &&& 0 < generated.len() <= ending.max_new_tokens
    &&& natural_end(ending, generated) is Some
    &&& forall|k: int|
        1 <= k < generated.len() ==> natural_end(ending, #[trigger] generated.take(k)) is None
}

/// A request goes on after some tokens: each of them was shown and answered to go on, none of them
/// ended the request, and its flag reads as unset.
pub open spec fn going_on<F: FnMut(GenerationEvent<'_>) -> ControlFlow<()>>(
    ending: Ending,
    flag: FlagReads,
    on_token: F,
    generated: Seq<i32>,
) -> bool {
    &&& flag.unset
    &&& open_ended(ending, generated)
    &&& forall|i: int|
        0 <= i < generated.len() ==> #[trigger] shown(on_token, ending, generated, i, false)
}

/// A request is over with some tokens.
pub open spec fn over_with<F: FnMut(GenerationEvent<'_>) -> ControlFlow<()>>(
    prompt: Seq<i32>,
    ending: Ending,
    flag: FlagReads,
    on_token: F,
    generated: Seq<i32>,
) -> bool {
    exists|output: TokenGenerationOutput, reason: GenerationFinishReason| #[trigger]
        ended(prompt, ending, flag, on_token, output, reason) && output.generated_token_ids@
            == generated
}

/// A request that has not ended: every token so far was shown, none of them ended it, and its flag
/// reads as unset.
pub open spec fn unended<F: FnMut(GenerationEvent<'_>) -> ControlFlow<()>>(
    prompt: Seq<i32>,
    ending: Ending,
    flag: FlagReads,
    on_token: F,
    output: TokenGenerationOutput,
) -> bool {
    let generated = output.generated_token_ids@;
    &&& output.token_ids@ == prompt + generated
    &&& !output.stopped_on_eos
    &&& going_on(ending, flag, on_token, generated)
}

/// A request that has ended: nothing ended it before its last token, and the reason given is the
/// one that holds there. Cancellation is the reason only where the request's flag reads as set or
/// the callback asked for it, and the flag reads as unset wherever the request went on.
pub open spec fn ended<F: FnMut(GenerationEvent<'_>) -> ControlFlow<()>>(
    prompt: Seq<i32>,
    ending: Ending,
    flag: FlagReads,
    on_token: F,
    output: TokenGenerationOutput,
    reason: GenerationFinishReason,
) -> bool {
    let generated = output.generated_token_ids@;
    &&& output.token_ids@ == prompt + generated
    &&& generated.len() <= ending.max_new_tokens
    &&& output.stopped_on_eos == (generated.len() > 0 && ending.eos.contains(generated.last()))
    &&& forall|k: int|
        1 <= k < generated.len() ==> natural_end(ending, #[trigger] generated.take(k)) is None
    &&& forall|i: int|
        0 <= i < generated.len() - 1 ==> #[trigger] shown(on_token, ending, generated, i, false)
    &&& if generated.len() == 0 {
        if reason is Cancelled {
            flag.set
        } else {
            flag.unset && ending.max_new_tokens == 0 && reason is MaxNewTokens
        }
    } else {
        flag.unset && exists|stop: bool| #[trigger]
            shown(on_token, ending, generated, generated.len() - 1, stop) && match natural_end(
                ending,
                generated,
            ) {
                Some(natural) => reason == natural,
                None => reason is Cancelled && (stop || flag.set),
            }
    }
}

/// How a request ends with a token: as its tokens end it, or cancelled where the callback asked to
/// stop or the cancellation flag was read as set; or else not at all.
pub open spec fn step_end(
    natural: Option<GenerationFinishReason>,
    stopped: bool,
    cancelled: bool,
) -> Option<GenerationFinishReason> {
    if natural is Some {
        natural
    } else if stopped || cancelled {
        Some(GenerationFinishReason::Cancelled)
    } else {
        None
    }
}

/// Decide how a request ends with a token, given what its callback and its flag said.
pub fn end_step(
    natural: Option<GenerationFinishReason>,
    stopped: bool,
    cancelled: bool,
) -> (end: Option<GenerationFinishReason>)
    ensures
        end == step_end(natural, stopped, cancelled),
{
    match natural {
        Some(reason) => Some(reason),
        None => if stopped || cancelled {
            Some(GenerationFinishReason::Cancelled)
        } else {
            None
        },
    }
}

/// A request whose cancellation flag reads as set may end where it stands.
pub(crate) proof fn lemma_cancel_ends<F: FnMut(GenerationEvent<'_>) -> ControlFlow<()>>(
    prompt: Seq<i32>,
    ending: Ending,
    flag: FlagReads,
    on_token: F,
    output: TokenGenerationOutput,
)
    requires
        unended(prompt, ending, flag, on_token, output),
        flag.set,
    ensures
        ended(prompt, ending, flag, on_token, output, GenerationFinishReason::Cancelled),
{
    let generated = output.generated_token_ids@;
    if generated.len() > 0 {
        assert(generated.take(generated.len() as int) =~= generated);
        assert(shown(on_token, ending, generated, generated.len() - 1, false));
    }
}

/// Append one token to an output, show it and say whether the request ends with it.
pub(crate) fn emit<F: FnMut(GenerationEvent<'_>) -> ControlFlow<()>>(
    token: i32,
    output: &mut TokenGenerationOutput,
    max_new_tokens: usize,
    eos: &Vec<i32>,
    matcher: &mut StopSequenceMatcher<'_>,
    control: &GenerationControl,
    on_token: &mut F,
    Ghost(prompt): Ghost<Seq<i32>>,
) -> (finished: Option<GenerationFinishReason>)
    requires
        old(matcher).wf(),
        old(matcher).history@ == old(output).generated_token_ids@,
        forall|event: GenerationEvent<'_>| #[trigger]
            tells(
                *old(on_token),
                Ending { max_new_tokens, eos: eos@, patterns: old(matcher).patterns@ },
                old(output).generated_token_ids@.push(token),
                event,
            ) ==> call_requires(*old(on_token), (event,)),
        unended(
            prompt,
            Ending { max_new_tokens, eos: eos@, patterns: old(matcher).patterns@ },
            control.flag(),
            *old(on_token),
            *old(output),
        ),
    ensures
        *final(on_token) == *old(on_token),
        final(matcher).wf(),
        final(matcher).patterns@ == old(matcher).patterns@,
        final(matcher).history@ == final(output).generated_token_ids@,
        final(output).generated_token_ids@ == old(output).generated_token_ids@.push(token),
        ({
            let ending = Ending { max_new_tokens, eos: eos@, patterns: old(matcher).patterns@ };
            match finished {
                None => unended(
                    prompt,
                    ending,
                    control.flag(),
                    *old(on_token),
                    *final(output),
                ) && !eos@.contains(token),
                Some(reason) => ended(
                    prompt,
                    ending,
                    control.flag(),
                    *old(on_token),
                    *final(output),
                    reason,
                ),
            }
        }),
{
    let ghost ending = Ending { max_new_tokens, eos: eos@, patterns: matcher.patterns@ };
    let ghost before = output.generated_token_ids@;
    let ghost callback = *on_token;
    output.token_ids.push(token);
    output.generated_token_ids.push(token);
    let matched: Option<usize> = matcher.push(token);
    let ghost generated = output.generated_token_ids@;
    // A length fits a machine integer.
    let _pattern_count: usize = matcher.patterns.len();
    proof {
        lemma_first_stop(ending.patterns, generated, matched);
        assert(generated.take(generated.len() as int) =~= generated);
        assert(output.token_ids@ =~= prompt + generated);
        assert forall|k: int| 1 <= k < generated.len() implies natural_end(
            ending,
            #[trigger] generated.take(k),
        ) is None by {
            assert(generated.take(k) =~= before.take(k));
        }
        assert forall|i: int| 0 <= i < generated.len() - 1 implies #[trigger] shown(
            callback,
            ending,
            generated,
            i,
            false,
        ) by {
            assert(generated.take(i + 1) =~= before.take(i + 1));
            assert(generated[i] == before[i]);
            assert(shown(callback, ending, before, i, false));
        }
    }
    let natural: Option<GenerationFinishReason> = if contains_token(eos, token) {
        output.stopped_on_eos = true;
        Some(GenerationFinishReason::EosToken(token))
    } else {
        match matched {
            Some(index) => Some(GenerationFinishReason::StopSequence(index)),
            None => if output.generated_token_ids.len() == max_new_tokens {
                Some(GenerationFinishReason::MaxNewTokens)
            } else {
                None
            },
        }
    };
    let event = GenerationEvent {
        token_id: token,
        generated_token_ids: output.generated_token_ids.as_slice(),
        finish_reason: natural,
    };
    assert(tells(callback, ending, before.push(token), event));
    let response = on_token(event);
    let stop = match response {
        ControlFlow::Break(_) => true,
        ControlFlow::Continue(_) => false,
    };
    assert(shown(callback, ending, generated, generated.len() - 1, stop));
    let cancelled = natural.is_none() && !stop && control.is_cancelled();
    end_step(natural, stop, cancelled)
}

/// The forward passes and choices behind some generated tokens.
#[verifier::reject_recursive_types(C)]
pub struct DecodeTrace<C> {
    /// The cache before the first pass.
    pub start: C,
    /// The cache after each pass.
    pub caches: Seq<C>,
    /// What each pass returned.
    pub blocks: Seq<LogitBlock>,
    /// The selector before each choice, and at the end.
    pub states: Seq<Option<SamplerModel>>,
    /// What was chosen.
    pub tokens: Seq<i32>,
}

/// The first pass reads the prompt and each later one the token chosen before it; each token is
/// chosen from what the pass before it returned.
pub open spec fn decodes<M: CausalModel, A: SamplingArithmetic>(
    model: &M,
    arithmetic: &A,
    selector: Option<SamplerModel>,
    prompt: Seq<i32>,
    trace: DecodeTrace<M::Cache>,
) -> bool {
    &&& call_ensures(M::new_cache, (model,), trace.start)
    &&& trace.caches.len() == trace.blocks.len()
    &&& trace.states.len() == trace.tokens.len() + 1
    &&& trace.states[0] == selector
    &&& trace.tokens.len() <= trace.blocks.len() <= trace.tokens.len() + 1
    &&& trace.blocks.len() > 0 ==> model.advances(
        prompt,
        trace.start,
        trace.caches[0],
        Ok(trace.blocks[0]),
    )
    &&& forall|i: int|
        1 <= i < trace.blocks.len() ==> model.advances(
            seq![trace.tokens[i - 1]],
            trace.caches[i - 1],
            #[trigger] trace.caches[i],
            Ok(trace.blocks[i]),
        )
    &&& forall|i: int|
        0 <= i < trace.tokens.len() ==> selected(
            model,
            arithmetic,
            trace.states[i],
            trace.blocks[i],
            Ok(#[trigger] trace.tokens[i]),
            trace.states[i + 1],
        )
}

/// What a finished request returns: it has ended, and its tokens come from the model one by one.
pub open spec fn finished<M: CausalModel, A: SamplingArithmetic, F: FnMut(
    GenerationEvent<'_>,
) -> ControlFlow<()>>(
    model: &M,
    arithmetic: &A,
    selector: Option<SamplerModel>,
    prompt: Seq<i32>,
    ending: Ending,
    flag: FlagReads,
    on_token: F,
    result: ControlledGenerationOutput,
) -> bool {
    let generated = result.output.generated_token_ids@;
    &&& ended(prompt, ending, flag, on_token, result.output, result.finish_reason)
    &&& generated.len() > 0 ==> exists|trace: DecodeTrace<M::Cache>| #[trigger]
        decodes(model, arithmetic, selector, prompt, trace) && trace.tokens == generated
}

/// The device was waited for, and had finished.
pub open spec fn synced<M: CausalModel>(model: &M) -> bool {
    exists|answer: Result<(), String>|
        answer is Ok && #[trigger] call_ensures(M::sync, (model,), answer)
}

/// The model or the choice of a token failed after tokens that did not end the request, or the
/// device failed when the request was over.
pub open spec fn broke_down<M: CausalModel, A: SamplingArithmetic, F: FnMut(
    GenerationEvent<'_>,
) -> ControlFlow<()>>(
    model: &M,
    arithmetic: &A,
    selector: Option<SamplerModel>,
    prompt: Seq<i32>,
    ending: Ending,
    flag: FlagReads,
    on_token: F,
    error: GenerationError,
) -> bool {
    exists|trace: DecodeTrace<M::Cache>| #[trigger]
        decodes(model, arithmetic, selector, prompt, trace) && {
            ||| going_on(ending, flag, on_token, trace.tokens) && breaks_after(
                model,
                arithmetic,
                prompt,
                trace,
                error,
            )
            ||| over_with(prompt, ending, flag, on_token, trace.tokens) && breaks_at_end(
                model,
                trace,
                error,
            )
        }
}

/// As `broke_down`, without callback or cancellation flag.
pub open spec fn broke_down_alone<M: CausalModel, A: SamplingArithmetic>(
    model: &M,
    arithmetic: &A,
    selector: Option<SamplerModel>,
    prompt: Seq<i32>,
    ending: Ending,
    error: GenerationError,
) -> bool {
    exists|trace: DecodeTrace<M::Cache>| #[trigger]
        decodes(model, arithmetic, selector, prompt, trace) && {
            ||| open_ended(ending, trace.tokens) && breaks_after(
                model,
                arithmetic,
                prompt,
                trace,
                error,
            )
            ||| closed_by(ending, trace.tokens) && breaks_at_end(model, trace, error)
        }
}

/// What comes right after a trace fails: the pass over the prompt, a choice, or the pass over the
/// token chosen last.
pub open spec fn breaks_after<M: CausalModel, A: SamplingArithmetic>(
    model: &M,
    arithmetic: &A,
    prompt: Seq<i32>,
    trace: DecodeTrace<M::Cache>,
    error: GenerationError,
) -> bool {
    ||| trace.blocks.len() == 0 && exists|after: M::Cache| #[trigger]
        model.advances(prompt, trace.start, after, Err(error))
    ||| trace.blocks.len() > trace.tokens.len() && exists|after: Option<SamplerModel>| #[trigger]
        selected(
            model,
            arithmetic,
            trace.states.last(),
            trace.blocks.last(),
            Err(error),
            after,
        )
    ||| trace.blocks.len() == trace.tokens.len() && trace.tokens.len() > 0 && exists|
        after: M::Cache,
    | #[trigger]
        model.advances(seq![trace.tokens.last()], trace.caches.last(), after, Err(error))
}

/// The device fails after the last choice of a trace.
pub open spec fn breaks_at_end<M: CausalModel>(
    model: &M,
    trace: DecodeTrace<M::Cache>,
    error: GenerationError,
) -> bool {
    &&& 0 < trace.tokens.len() == trace.blocks.len()
    &&& exists|reason: String| #[trigger]
        call_ensures(M::sync, (model,), Err(reason)) && error.0@
            == "generation did not complete: "@ + reason@
}

/// What a request comes to: refused with the first fault that it has, finished, or broken off by a
/// failure of the model.
pub open spec fn stream_outcome<M: CausalModel, A: SamplingArithmetic, F: FnMut(
    GenerationEvent<'_>,
) -> ControlFlow<()>>(
    model: &M,
    limits: CausalModelLimits,
    arithmetic: &A,
    selector: Option<SamplerModel>,
    prompt: Seq<i32>,
    ending: Ending,
    flag: FlagReads,
    on_token: F,
    result: Result<ControlledGenerationOutput, GenerationError>,
) -> bool {
    let refused = generation_error(limits, prompt, ending.max_new_tokens, ending.eos);
    let stops = patterns_error(ending.patterns, limits.vocab_size);
    match result {
        Ok(output) => refused is None && stops is None && finished(
            model,
            arithmetic,
            selector,
            prompt,
            ending,
            flag,
            on_token,
            output,
        ) && (output.output.generated_token_ids@.len() > 0 ==> synced(model)),
        Err(error) => if refused is Some {
            error.0@ == refused->0
        } else if stops is Some {
            error.0@ == stops->0
        } else {
            broke_down(model, arithmetic, selector, prompt, ending, flag, on_token, error)
        },
    }
}

/// Decode one request: a pass over the prompt, then one per token, until an end token, a stop
/// sequence, the limit, the callback or the cancellation flag ends it.
#[verifier::loop_isolation(false)]
pub fn generate_with_selector_stream<
    M: CausalModel,
    A: SamplingArithmetic,
    F: FnMut(GenerationEvent<'_>) -> ControlFlow<()>,
>(
    model: &M,
    model_limits: &CausalModelLimits,
    prompt_token_ids: &[i32],
    generation: &GreedyGenerationConfig,
    control: &GenerationControl,
    arithmetic: &A,
    selector: TokenSelector,
    on_token: F,
) -> (result: Result<ControlledGenerationOutput, GenerationError>)
    requires
        selector@ is Some ==> usable(arithmetic),
        forall|event: GenerationEvent<'_>| #[trigger]
            showable(
                model,
                arithmetic,
                selector@,
                prompt_token_ids@,
                Ending {
                    max_new_tokens: generation.max_new_tokens,
                    eos: generation.eos_token_ids@,
                    patterns: control.stop_token_sequences@,
                },
                on_token,
                event,
            ) ==> call_requires(on_token, (event,)),
    ensures
        stream_outcome(
            model,
            *model_limits,
            arithmetic,
            selector@,
            prompt_token_ids@,
            Ending {
                max_new_tokens: generation.max_new_tokens,
                eos: generation.eos_token_ids@,
                patterns: control.stop_token_sequences@,
            },
            control.flag(),
            on_token,
            result,
        ),
{
    let eos = match validate_generation(model_limits, prompt_token_ids, generation) {
        Ok(eos) => eos,
        Err(error) => {
            return Err(error);
        },
    };
    match control.validate(model_limits.vocab_size) {
        Ok(_) => {},
        Err(error) => {
            return Err(error);
        },
    }
    let max_new_tokens: usize = generation.max_new_tokens;
    let ghost prompt = prompt_token_ids@;
    let ghost start_state = selector@;
    let ghost ending = Ending {
        max_new_tokens,
        eos: generation.eos_token_ids@,
        patterns: control.stop_token_sequences@,
    };
    let mut output = TokenGenerationOutput {
        token_ids: copy_tokens(prompt_token_ids),
        generated_token_ids: Vec::new(),
        stopped_on_eos: false,
    };
    assert(output.token_ids@ =~= prompt + output.generated_token_ids@);
    if control.is_cancelled() {
        return Ok(
            ControlledGenerationOutput { output, finish_reason: GenerationFinishReason::Cancelled },
        );
    }
    if max_new_tokens == 0 {
        return Ok(
            ControlledGenerationOutput {
                output,
                finish_reason: GenerationFinishReason::MaxNewTokens,
            },
        );
    }
    proof {
        lemma_patterns_not_empty(control.stop_token_sequences@, model_limits.vocab_size);
    }
    let mut matcher = StopSequenceMatcher::new(&control.stop_token_sequences);
    let mut selector = selector;
    let mut on_token = on_token;
    let ghost callback = on_token;
    let mut cache = model.new_cache();
    let ghost mut trace = DecodeTrace::<M::Cache> {
        start: cache,
        caches: Seq::empty(),
        blocks: Seq::empty(),
        states: seq![start_state],
        tokens: Seq::empty(),
    };
    assert(decodes(model, arithmetic, start_state, prompt, trace));
    let mut logits = match model.try_forward_cached_last(prompt_token_ids, &mut cache) {
        Ok(logits) => logits,
        Err(error) => {
            assert(breaks_after(model, arithmetic, prompt, trace, error));
            return Err(error);
        },
    };
    proof {
        trace = DecodeTrace {
            caches: seq![cache],
            blocks: seq![logits],
            ..trace
        };
        assert(decodes(model, arithmetic, start_state, prompt, trace));
    }
    let mut finish_reason = GenerationFinishReason::Cancelled;
    let mut running = true;
    while running
        invariant
            selector@ is Some ==> usable(arithmetic),
            forall|event: GenerationEvent<'_>| #[trigger]
                showable(model, arithmetic, start_state, prompt, ending, callback, event)
                    ==> call_requires(callback, (event,)),
            on_token == callback,
            eos@ == ending.eos,
            ending.max_new_tokens == max_new_tokens,
            ending.patterns == control.stop_token_sequences@,
            matcher.wf(),
            matcher.patterns@ == ending.patterns,
            matcher.history@ == output.generated_token_ids@,
            decodes(model, arithmetic, start_state, prompt, trace),
            trace.tokens == output.generated_token_ids@,
            trace.states.last() == selector@,
            running ==> trace.blocks.len() == trace.tokens.len() + 1 && trace.caches.last() == cache
                && trace.blocks.last() == logits,
            running ==> unended(prompt, ending, control.flag(), callback, output),
            !running ==> 0 < trace.tokens.len() == trace.blocks.len(),
            output.generated_token_ids@.len() <= max_new_tokens,
            !running ==> finished(
                model,
                arithmetic,
                start_state,
                prompt,
                ending,
                control.flag(),
                callback,
                (ControlledGenerationOutput { output, finish_reason }),
            ),
        decreases max_new_tokens - output.generated_token_ids@.len() + if running { 1int } else { 0int },
    {
        let token: i32 = match selector.select(model, arithmetic, &logits) {
            Ok(token) => token,
            Err(error) => {
                assert(selected(
                    model,
                    arithmetic,
                    trace.states.last(),
                    trace.blocks.last(),
                    Err(error),
                    selector@,
                ));
                assert(breaks_after(model, arithmetic, prompt, trace, error));
                return Err(error);
            },
        };
        let ghost old_trace = trace;
        proof {
            trace = DecodeTrace {
                states: old_trace.states.push(selector@),
                tokens: old_trace.tokens.push(token),
                ..old_trace
            };
            assert forall|i: int| 0 <= i < trace.tokens.len() implies selected(
                model,
                arithmetic,
                trace.states[i],
                trace.blocks[i],
                Ok(#[trigger] trace.tokens[i]),
                trace.states[i + 1],
            ) by {
                if i < old_trace.tokens.len() {
                    assert(old_trace.tokens[i] == trace.tokens[i]);
                }
            }
            assert forall|i: int| 1 <= i < trace.blocks.len() implies model.advances(
                seq![trace.tokens[i - 1]],
                trace.caches[i - 1],
                #[trigger] trace.caches[i],
                Ok(trace.blocks[i]),
            ) by {
                assert(old_trace.caches[i] == trace.caches[i]);
                assert(old_trace.tokens[i - 1] == trace.tokens[i - 1]);
            }
            assert(decodes(model, arithmetic, start_state, prompt, trace));
            assert forall|event: GenerationEvent<'_>| #[trigger]
                tells(callback, ending, output.generated_token_ids@.push(token), event) implies call_requires(
                callback,
                (event,),
            ) by {
                assert(tells(callback, ending, trace.tokens, event));
                assert(showable(model, arithmetic, start_state, prompt, ending, callback, event));
            }
        }
        let stop = emit(
            token,
            &mut output,
            max_new_tokens,
            &eos,
            &mut matcher,
            control,
            &mut on_token,
            Ghost(prompt),
        );
        match stop {
            Some(reason) => {
                finish_reason = reason;
                running = false;
            },
            None => {
                let input = vec![token];
                assert(input@ =~= seq![token]);
                logits = match model.try_forward_cached_last(&input, &mut cache) {
                    Ok(logits) => logits,
                    Err(error) => {
                        assert(model.advances(
                            seq![trace.tokens.last()],
                            trace.caches.last(),
                            cache,
                            Err(error),
                        ));
                        assert(breaks_after(model, arithmetic, prompt, trace, error));
                        return Err(error);
                    },
                };
                proof {
                    let shorter = trace;
                    trace = DecodeTrace {
                        caches: shorter.caches.push(cache),
                        blocks: shorter.blocks.push(logits),
                        ..shorter
                    };
                    assert forall|i: int| 1 <= i < trace.blocks.len() implies model.advances(
                        seq![trace.tokens[i - 1]],
                        trace.caches[i - 1],
                        #[trigger] trace.caches[i],
                        Ok(trace.blocks[i]),
                    ) by {
                        if i < shorter.blocks.len() {
                            assert(shorter.caches[i] == trace.caches[i]);
                        }
                    }
                    assert forall|i: int| 0 <= i < trace.tokens.len() implies selected(
                        model,
                        arithmetic,
                        trace.states[i],
                        trace.blocks[i],
                        Ok(#[trigger] trace.tokens[i]),
                        trace.states[i + 1],
                    ) by {
                        assert(shorter.tokens[i] == trace.tokens[i]);
                        assert(shorter.blocks[i] == trace.blocks[i]);
                    }
                    assert(decodes(model, arithmetic, start_state, prompt, trace));
                }
            },
        }
    }
    let answer = model.sync();
    let ghost told = answer;
    assert(call_ensures(M::sync, (model,), told));
    match answer {
        Ok(_) => {
            assert(told is Ok);
        },
        Err(reason) => {
            let mut message = text("generation did not complete: ");
            message.append(reason.as_str());
            let error = GenerationError(message);
            assert(over_with(prompt, ending, control.flag(), callback, trace.tokens));
            assert(breaks_at_end(model, trace, error));
            return Err(error);
        },
    }
    Ok(ControlledGenerationOutput { output, finish_reason })
}

/// Stands in for the floating-point side where no token is sampled.
pub struct GreedyOnly;

impl SamplingArithmetic for GreedyOnly {
    fn exponential(&self, temperature: u64, logit: u32, maximum: u32) -> u64 {
        0
    }

    fn quotient(&self, left: u64, right: u64) -> u64 {
        0
    }

    fn difference(&self, left: u64, right: u64) -> u64 {
        0
    }

    fn cumulative(&self, weights: &[u64]) -> Vec<u64> {
        Vec::new()
    }

    fn uniform(&self, numerator: u64) -> u64 {
        0
    }

    fn total(&self, weights: &[u64]) -> u64 {
        0
    }

    fn product(&self, left: u64, right: u64) -> u64 {
        0
    }
}

/// What an uninterrupted request returns: as many tokens as its limit, or fewer where an end token
/// or a stop sequence comes first.
pub open spec fn completed<M: CausalModel, A: SamplingArithmetic>(
    model: &M,
    arithmetic: &A,
    selector: Option<SamplerModel>,
    prompt: Seq<i32>,
    ending: Ending,
    output: TokenGenerationOutput,
) -> bool {
    let generated = output.generated_token_ids@;
    &&& output.token_ids@ == prompt + generated
    &&& output.stopped_on_eos == (generated.len() > 0 && ending.eos.contains(generated.last()))
    &&& forall|k: int|
        1 <= k < generated.len() ==> natural_end(ending, #[trigger] generated.take(k)) is None
    &&& if ending.max_new_tokens == 0 {
        generated.len() == 0
    } else {
        &&& 0 < generated.len() <= ending.max_new_tokens
        &&& natural_end(ending, generated) is Some
        &&& exists|trace: DecodeTrace<M::Cache>| #[trigger]
            decodes(model, arithmetic, selector, prompt, trace) && trace.tokens == generated
        &&& synced(model)
    }
}

/// What a request without stop sequences, callback or cancellation flag comes to.
pub open spec fn plain_outcome<M: CausalModel, A: SamplingArithmetic>(
    model: &M,
    limits: CausalModelLimits,
    arithmetic: &A,
    selector: Option<SamplerModel>,
    prompt: Seq<i32>,
    max_new_tokens: usize,
    eos: Seq<i32>,
    result: Result<TokenGenerationOutput, GenerationError>,
) -> bool {
    let refused = generation_error(limits, prompt, max_new_tokens, eos);
    match result {
        Ok(output) => refused is None && completed(
            model,
            arithmetic,
            selector,
            prompt,
            Ending { max_new_tokens, eos, patterns: Seq::empty() },
            output,
        ),
        Err(error) => match refused {
            Some(message) => error.0@ == message,
            None => broke_down_alone(
                model,
                arithmetic,
                selector,
                prompt,
                Ending { max_new_tokens, eos, patterns: Seq::empty() },
                error,
            ),
        },
    }
}

/// Decode without stop sequences, callback or cancellation flag.
fn generate_with_selector<M: CausalModel, A: SamplingArithmetic>(
    model: &M,
    model_limits: &CausalModelLimits,
    prompt_token_ids: &[i32],
    generation: &GreedyGenerationConfig,
    arithmetic: &A,
    selector: TokenSelector,
) -> (result: Result<TokenGenerationOutput, GenerationError>)
    requires
        selector@ is Some ==> usable(arithmetic),
    ensures
        plain_outcome(
            model,
            *model_limits,
            arithmetic,
            selector@,
            prompt_token_ids@,
            generation.max_new_tokens,
            generation.eos_token_ids@,
            result,
        ),
{
    let control = GenerationControl::default();
    let on_token = |event: GenerationEvent<'_>| -> (answer: ControlFlow<()>)
        ensures
            answer is Continue,
        { ControlFlow::Continue(()) };
    let result = generate_with_selector_stream(
        model,
        model_limits,
        prompt_token_ids,
        generation,
        &control,
        arithmetic,
        selector,
        on_token,
    );
    assert(control.stop_token_sequences@ =~= Seq::empty());
    proof {
        law_watching_changes_nothing(
            model,
            *model_limits,
            arithmetic,
            selector@,
            prompt_token_ids@,
            generation.max_new_tokens,
            generation.eos_token_ids@,
            on_token,
            result,
        );
    }
    match result {
        Ok(controlled) => Ok(controlled.output),
        Err(error) => Err(error),
    }
}

/// Run a batch-one cached prefill/decode loop that selects the model's greedy token at each step.
pub fn generate_causal_greedy<M: CausalModel>(
    model: &M,
    model_limits: &CausalModelLimits,
    prompt_token_ids: &[i32],
    generation: &GreedyGenerationConfig,
) -> (result: Result<TokenGenerationOutput, GenerationError>)
    ensures
        plain_outcome(
            model,
            *model_limits,
            &GreedyOnly,
            None,
            prompt_token_ids@,
            generation.max_new_tokens,
            generation.eos_token_ids@,
            result,
        ),
{
    let arithmetic = GreedyOnly;
    generate_with_selector(
        model,
        model_limits,
        prompt_token_ids,
        generation,
        &arithmetic,
        TokenSelector::Greedy,
    )
}

/// Run a batch-one cached prefill/decode loop on a Llama model. Token selection and stopping
/// semantics do not depend on how the model holds its weights.
pub fn generate_greedy<M: CausalModel>(
    model: &M,
    model_config: &LlamaConfig,
    prompt_token_ids: &[i32],
    generation: &GreedyGenerationConfig,
) -> (result: Result<TokenGenerationOutput, GenerationError>)
    ensures
        plain_outcome(
            model,
            CausalModelLimits {
                vocab_size: model_config.vocab_size,
                max_sequence_length: model_config.max_sequence_length,
            },
            &GreedyOnly,
            None,
            prompt_token_ids@,
            generation.max_new_tokens,
            generation.eos_token_ids@,
            result,
        ),
{
    let limits = CausalModelLimits::from(model_config);
    generate_causal_greedy(model, &limits, prompt_token_ids, generation)
}

/// The sampler that a request starts with: its options, and its seed where it has one.
pub open spec fn fresh_sampler(
    sampling: SamplingConfig,
    sampler: SamplerModel,
) -> bool {
    sampler.config == sampling && (sampling.seed matches Some(seed) ==> sampler.state
        == chacha12_seeded(seed))
}

/// Sample each token with a sampler of the request's own.
pub fn generate_causal_sampled<M: CausalModel, A: SamplingArithmetic>(
    model: &M,
    model_limits: &CausalModelLimits,
    prompt_token_ids: &[i32],
    generation: &SamplingGenerationConfig,
    arithmetic: &A,
) -> (result: Result<TokenGenerationOutput, GenerationError>)
    requires
        usable(arithmetic),
    ensures
        match config_error(generation.sampling) {
            Some(message) => result matches Err(error) && error.0@ == message,
            None => exists|sampler: SamplerModel| #[trigger]
                fresh_sampler(generation.sampling, sampler) && plain_outcome(
                    model,
                    *model_limits,
                    arithmetic,
                    Some(sampler),
                    prompt_token_ids@,
                    generation.max_new_tokens,
                    generation.eos_token_ids@,
                    result,
                ),
        },
{
    let sampler = match TokenSampler::new(generation.sampling) {
        Ok(sampler) => sampler,
        Err(error) => {
            return Err(error);
        },
    };
    assert(fresh_sampler(generation.sampling, sampler@));
    let limits = GreedyGenerationConfig {
        max_new_tokens: generation.max_new_tokens,
        eos_token_ids: copy_tokens(&generation.eos_token_ids),
    };
    generate_with_selector(
        model,
        model_limits,
        prompt_token_ids,
        &limits,
        arithmetic,
        TokenSelector::Sampled(sampler),
    )
}

/// Sample each token of a Llama model with a sampler of the request's own.
pub fn generate_sampled<M: CausalModel, A: SamplingArithmetic>(
    model: &M,
    model_config: &LlamaConfig,
    prompt_token_ids: &[i32],
    generation: &SamplingGenerationConfig,
    arithmetic: &A,
) -> (result: Result<TokenGenerationOutput, GenerationError>)
    requires
        usable(arithmetic),
    ensures
        match config_error(generation.sampling) {
            Some(message) => result matches Err(error) && error.0@ == message,
            None => exists|sampler: SamplerModel| #[trigger]
                fresh_sampler(generation.sampling, sampler) && plain_outcome(
                    model,
                    CausalModelLimits {
                        vocab_size: model_config.vocab_size,
                        max_sequence_length: model_config.max_sequence_length,
                    },
                    arithmetic,
                    Some(sampler),
                    prompt_token_ids@,
                    generation.max_new_tokens,
                    generation.eos_token_ids@,
                    result,
                ),
        },
{
    let limits = CausalModelLimits::from(model_config);
    generate_causal_sampled(model, &limits, prompt_token_ids, generation, arithmetic)
}

/// Sample with the same filtering/RNG semantics as `generate_causal_sampled`,
/// while observing token callbacks, stop sequences and cooperative cancellation.
pub fn generate_causal_sampled_stream<
    M: CausalModel,
    A: SamplingArithmetic,
    F: FnMut(GenerationEvent<'_>) -> ControlFlow<()>,
>(
    model: &M,
    model_limits: &CausalModelLimits,
    prompt_token_ids: &[i32],
    generation: &SamplingGenerationConfig,
    control: &GenerationControl,
    arithmetic: &A,
    on_token: F,
) -> (result: Result<ControlledGenerationOutput, GenerationError>)
    requires
        usable(arithmetic),
        forall|sampler: SamplerModel, event: GenerationEvent<'_>|
            fresh_sampler(generation.sampling, sampler) && #[trigger] showable(
                model,
                arithmetic,
                Some(sampler),
                prompt_token_ids@,
                Ending {
                    max_new_tokens: generation.max_new_tokens,
                    eos: generation.eos_token_ids@,
                    patterns: control.stop_token_sequences@,
                },
                on_token,
                event,
            ) ==> call_requires(on_token, (event,)),
    ensures
        match config_error(generation.sampling) {
            Some(message) => result matches Err(error) && error.0@ == message,
            None => exists|sampler: SamplerModel| #[trigger]
                fresh_sampler(generation.sampling, sampler) && stream_outcome(
                    model,
                    *model_limits,
                    arithmetic,
                    Some(sampler),
                    prompt_token_ids@,
                    Ending {
                        max_new_tokens: generation.max_new_tokens,
                        eos: generation.eos_token_ids@,
                        patterns: control.stop_token_sequences@,
                    },
                    control.flag(),
                    on_token,
                    result,
                ),
        },
{
    let sampler = match TokenSampler::new(generation.sampling) {
        Ok(sampler) => sampler,
        Err(error) => {
            return Err(error);
        },
    };
    assert(fresh_sampler(generation.sampling, sampler@));
    let limits = GreedyGenerationConfig {
        max_new_tokens: generation.max_new_tokens,
        eos_token_ids: copy_tokens(&generation.eos_token_ids),
    };
    generate_with_selector_stream(
        model,
        model_limits,
        prompt_token_ids,
        &limits,
        control,
        arithmetic,
        TokenSelector::Sampled(sampler),
        on_token,
    )
}

} // verus!
