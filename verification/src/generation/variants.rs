//! Generation with Llama models whose weights are packed or quantized. Token selection and
//! stopping do not depend on how a model holds its weights: each of these is the plain loop on the
//! model that it is given.

use crate::generation::sampling::{
    config_error, usable, SamplerModel, SamplingArithmetic, SamplingGenerationConfig,
};
use crate::generation::{
    fresh_sampler, generate_greedy, generate_sampled, plain_outcome, CausalModel,
    CausalModelLimits, GenerationError, GreedyGenerationConfig, GreedyOnly, TokenGenerationOutput,
};
use crate::llama::LlamaConfig;
use crate::logits::{shape_message, shape_text, single_row, LogitBlock};
use crate::text::text;
use vstd::prelude::*;

verus! {

/// What greedy generation with a Llama model comes to.
pub open spec fn greedy_outcome<M: CausalModel>(
    model: &M,
    config: LlamaConfig,
    prompt: Seq<i32>,
    generation: GreedyGenerationConfig,
    result: Result<TokenGenerationOutput, GenerationError>,
) -> bool {
    plain_outcome(
        model,
        CausalModelLimits {
            vocab_size: config.vocab_size,
            max_sequence_length: config.max_sequence_length,
        },
        &GreedyOnly,
        None,
        prompt,
        generation.max_new_tokens,
        generation.eos_token_ids@,
        result,
    )
}

/// What sampled generation with a Llama model comes to.
pub open spec fn sampled_outcome<M: CausalModel, A: SamplingArithmetic>(
    model: &M,
    config: LlamaConfig,
    prompt: Seq<i32>,
    generation: SamplingGenerationConfig,
    arithmetic: &A,
    result: Result<TokenGenerationOutput, GenerationError>,
) -> bool {
    match config_error(generation.sampling) {
        Some(message) => result matches Err(error) && error.0@ == message,
        None => exists|sampler: SamplerModel| #[trigger]
            fresh_sampler(generation.sampling, sampler) && plain_outcome(
                model,
                CausalModelLimits {
                    vocab_size: config.vocab_size,
                    max_sequence_length: config.max_sequence_length,
                },
                arithmetic,
                Some(sampler),
                prompt,
                generation.max_new_tokens,
                generation.eos_token_ids@,
                result,
            ),
    }
}

/// Greedy decoding for a model whose projections have been packed once after checkpoint loading.
pub fn generate_greedy_packed<M: CausalModel>(
    model: &M,
    model_config: &LlamaConfig,
    prompt_token_ids: &[i32],
    generation: &GreedyGenerationConfig,
) -> (result: Result<TokenGenerationOutput, GenerationError>)
    ensures
        greedy_outcome(model, *model_config, prompt_token_ids@, *generation, result),
{
    generate_greedy(model, model_config, prompt_token_ids, generation)
}

/// Greedy decoding for a packed model by its dedicated kernels.
pub fn generate_greedy_packed_ruda<M: CausalModel>(
    model: &M,
    model_config: &LlamaConfig,
    prompt_token_ids: &[i32],
    generation: &GreedyGenerationConfig,
) -> (result: Result<TokenGenerationOutput, GenerationError>)
    ensures
        greedy_outcome(model, *model_config, prompt_token_ids@, *generation, result),
{
    generate_greedy(model, model_config, prompt_token_ids, generation)
}

/// Greedy decoding for a quantized model.
pub fn generate_greedy_awq<M: CausalModel>(
    model: &M,
    model_config: &LlamaConfig,
    prompt_token_ids: &[i32],
    generation: &GreedyGenerationConfig,
) -> (result: Result<TokenGenerationOutput, GenerationError>)
    ensures
        greedy_outcome(model, *model_config, prompt_token_ids@, *generation, result),
{
    generate_greedy(model, model_config, prompt_token_ids, generation)
}

/// Sampled decoding for a packed model.
pub fn generate_sampled_packed<M: CausalModel, A: SamplingArithmetic>(
    model: &M,
    model_config: &LlamaConfig,
    prompt_token_ids: &[i32],
    generation: &SamplingGenerationConfig,
    arithmetic: &A,
) -> (result: Result<TokenGenerationOutput, GenerationError>)
    requires
        usable(arithmetic),
    ensures
        sampled_outcome(
            model,
            *model_config,
            prompt_token_ids@,
            *generation,
            arithmetic,
            result,
        ),
{
    generate_sampled(model, model_config, prompt_token_ids, generation, arithmetic)
}

/// Sampled decoding for a packed model by its dedicated kernels.
pub fn generate_sampled_packed_ruda<M: CausalModel, A: SamplingArithmetic>(
    model: &M,
    model_config: &LlamaConfig,
    prompt_token_ids: &[i32],
    generation: &SamplingGenerationConfig,
    arithmetic: &A,
) -> (result: Result<TokenGenerationOutput, GenerationError>)
    requires
        usable(arithmetic),
    ensures
        sampled_outcome(
            model,
            *model_config,
            prompt_token_ids@,
            *generation,
            arithmetic,
            result,
        ),
{
    generate_sampled(model, model_config, prompt_token_ids, generation, arithmetic)
}

/// Sampled decoding for a quantized model.
pub fn generate_sampled_awq<M: CausalModel, A: SamplingArithmetic>(
    model: &M,
    model_config: &LlamaConfig,
    prompt_token_ids: &[i32],
    generation: &SamplingGenerationConfig,
    arithmetic: &A,
) -> (result: Result<TokenGenerationOutput, GenerationError>)
    requires
        usable(arithmetic),
    ensures
        sampled_outcome(
            model,
            *model_config,
            prompt_token_ids@,
            *generation,
            arithmetic,
            result,
        ),
{
    generate_sampled(model, model_config, prompt_token_ids, generation, arithmetic)
}

/// What a device answers when it is asked for the place of the greatest logit.
#[derive(Debug)]
pub enum ArgmaxAnswer {
    /// The answer arrived.
    Indices(Vec<i32>),
    /// It could not be read back.
    Unread(String),
    /// It is not made of token identifiers.
    Undecoded(String),
}

/// The token that a device's answer names.
pub open spec fn named_token(answer: ArgmaxAnswer, result: Result<i32, GenerationError>) -> bool {
    match answer {
        ArgmaxAnswer::Indices(indices) => if indices@.len() > 0 {
            result == Ok::<i32, GenerationError>(indices@[0])
        } else {
            result matches Err(error) && error.0@ == "generation argmax was empty"@
        },
        ArgmaxAnswer::Unread(cause) => result matches Err(error) && error.0@
            == "cannot read generation argmax: "@ + cause@,
        ArgmaxAnswer::Undecoded(cause) => result matches Err(error) && error.0@
            == "cannot decode generation argmax: "@ + cause@,
    }
}

fn caused(message: &str, cause: &String) -> (error: GenerationError)
    ensures
        error.0@ == message@ + cause@,
{
    let mut message = text(message);
    message.append(cause.as_str());
    GenerationError(message)
}

/// The token that a device's answer names.
pub fn argmax_token(answer: ArgmaxAnswer) -> (result: Result<i32, GenerationError>)
    ensures
        named_token(answer, result),
{
    match answer {
        ArgmaxAnswer::Indices(indices) => {
            if indices.len() > 0 {
                Ok(indices[0])
            } else {
                Err(GenerationError(text("generation argmax was empty")))
            }
        },
        ArgmaxAnswer::Unread(cause) => Err(caused("cannot read generation argmax: ", &cause)),
        ArgmaxAnswer::Undecoded(cause) => Err(caused("cannot decode generation argmax: ", &cause)),
    }
}

/// Let a device choose the greatest logit at the last position. The device is asked only for
/// logits that answer for a single request.
pub fn device_greedy_token<F: FnOnce(Vec<u32>) -> ArgmaxAnswer>(
    logits: &LogitBlock,
    argmax: F,
) -> (result: Result<i32, GenerationError>)
    requires
        single_row(logits@) ==> forall|row: Vec<u32>|
            row@ == logits@.last_row() ==> call_requires(argmax, (row,)),
    ensures
        if single_row(logits@) {
            exists|row: Vec<u32>, answer: ArgmaxAnswer|
                row@ == logits@.last_row() && #[trigger] call_ensures(argmax, (row,), answer)
                    && named_token(answer, result)
        } else {
            result matches Err(error) && error.0@ == shape_message(logits@)
        },
{
    if logits.batch() != 1 || logits.sequence() == 0 || logits.vocabulary() == 0 {
        return Err(GenerationError(shape_text(logits)));
    }
    let row = logits.copy_last_row();
    argmax_token(argmax(row))
}

} // verus!
