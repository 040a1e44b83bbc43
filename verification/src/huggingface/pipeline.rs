//! Loaded models and text generation with them.

use crate::generation::sampling::{
    config_error, usable, SamplerModel, SamplingArithmetic, SamplingGenerationConfig,
};
use crate::generation::{
    copy_tokens, fresh_sampler, generate_greedy, generate_sampled, plain_outcome, CausalModel,
    CausalModelLimits, GenerationError, GreedyGenerationConfig, GreedyOnly, TokenGenerationOutput,
};
use crate::huggingface::chat::{chat_text, render_qwen2_chat_messages, Qwen2ChatMessage};
use crate::huggingface::loading::HuggingFaceLoadReport;
use crate::huggingface::tokenizer::{
    decode, decoded, encode, encodes, outside_vocabulary, tokenizer_vocab, tokenizer_vocab_size,
    validate_llama_vocabulary, validate_qwen_vocabulary,
};
use crate::huggingface::HuggingFaceLoadError;
use crate::llama::LlamaConfig;
use crate::text::decimal;
use tokenizers::Tokenizer;
use vstd::prelude::*;

verus! {

#[derive(Debug, Clone, PartialEq, Eq)]
pub struct GeneratedText {
    pub text: String,
    pub generated_text: String,
    pub token_ids: Vec<i32>,
    pub generated_token_ids: Vec<i32>,
    pub stopped_on_eos: bool,
}

#[derive(Debug)]
pub struct LoadedHuggingFaceLlama<M> {
    pub model: M,
    pub config: LlamaConfig,
    pub default_eos_token_ids: Vec<i32>,
    pub report: HuggingFaceLoadReport,
}

/// Strictly loaded Qwen2/Qwen2.5 causal language model. `config` contains the
/// common decoder geometry used by the paged Ruda runtime; the model itself was
/// initialized with Qwen-specific Q/K/V bias and rotary semantics.
#[derive(Debug)]
pub struct LoadedHuggingFaceQwen2<M> {
    pub model: M,
    pub config: LlamaConfig,
    pub default_eos_token_ids: Vec<i32>,
    pub report: HuggingFaceLoadReport,
}

#[derive(Debug)]
pub struct LoadedHuggingFaceAwqQwen2<M> {
    pub model: M,
    pub config: LlamaConfig,
    pub default_eos_token_ids: Vec<i32>,
    pub report: HuggingFaceLoadReport,
}

/// Complete local Hugging Face Llama inference entry point: strict config and
/// Safetensors loading, the model's `tokenizer.json`, and cached text decoding.
pub struct HuggingFaceLlamaPipeline<M> {
    pub loaded: LoadedHuggingFaceLlama<M>,
    pub tokenizer: Tokenizer,
}

pub struct HuggingFaceQwen2Pipeline<M> {
    pub loaded: LoadedHuggingFaceQwen2<M>,
    pub tokenizer: Tokenizer,
    /// Exact Jinja template supplied by `tokenizer_config.json`. Ruda renders the
    /// plain-message/no-tools Qwen branch itself and rejects incompatible
    /// templates rather than silently applying a guessed prompt format.
    pub chat_template: String,
}

pub struct HuggingFaceAwqQwen2Pipeline<M> {
    pub loaded: LoadedHuggingFaceAwqQwen2<M>,
    pub tokenizer: Tokenizer,
    pub chat_template: String,
}

/// The end tokens of a request: its own, or the model's where it has none.
pub open spec fn inherited(own: Seq<i32>, default: Seq<i32>) -> Seq<i32> {
    if own.len() == 0 {
        default
    } else {
        own
    }
}

/// What decoding with a loaded model comes to.
pub open spec fn tokens_outcome<M: CausalModel>(
    model: &M,
    config: LlamaConfig,
    default_eos: Seq<i32>,
    prompt: Seq<i32>,
    generation: GreedyGenerationConfig,
    result: Result<TokenGenerationOutput, GenerationError>,
) -> bool {
    plain_outcome(
        model,
        CausalModelLimits {
            vocab_size: config.vocab_size,
            max_sequence_length: config.max_sequence_length,
        },
        &GreedyOnly,
        None,
        prompt,
        generation.max_new_tokens,
        inherited(generation.eos_token_ids@, default_eos),
        result,
    )
}

/// What sampling with a loaded model comes to.
pub open spec fn sampled_outcome<M: CausalModel, A: SamplingArithmetic>(
    model: &M,
    config: LlamaConfig,
    arithmetic: &A,
    default_eos: Seq<i32>,
    prompt: Seq<i32>,
    generation: SamplingGenerationConfig,
    result: Result<TokenGenerationOutput, GenerationError>,
) -> bool {
    match config_error(generation.sampling) {
        Some(message) => result matches Err(error) && error.0@ == message,
        None => exists|sampler: SamplerModel| #[trigger]
            fresh_sampler(generation.sampling, sampler) && plain_outcome(
                model,
                CausalModelLimits {
                    vocab_size: config.vocab_size,
                    max_sequence_length: config.max_sequence_length,
                },
                arithmetic,
                Some(sampler),
                prompt,
                generation.max_new_tokens,
                inherited(generation.eos_token_ids@, default_eos),
                result,
            ),
    }
}

fn tokens_with_default<M: CausalModel>(
    model: &M,
    config: &LlamaConfig,
    default_eos: &Vec<i32>,
    prompt_token_ids: &[i32],
    generation: GreedyGenerationConfig,
) -> (result: Result<TokenGenerationOutput, GenerationError>)
    ensures
        tokens_outcome(model, *config, default_eos@, prompt_token_ids@, generation, result),
{
    let mut generation = generation;
    if generation.eos_token_ids.len() == 0 {
        generation.eos_token_ids = copy_tokens(default_eos);
    }
    generate_greedy(model, config, prompt_token_ids, &generation)
}

fn sampled_with_default<M: CausalModel, A: SamplingArithmetic>(
    model: &M,
    config: &LlamaConfig,
    arithmetic: &A,
    default_eos: &Vec<i32>,
    prompt_token_ids: &[i32],
    generation: SamplingGenerationConfig,
) -> (result: Result<TokenGenerationOutput, GenerationError>)
    requires
        usable(arithmetic),
    ensures
        sampled_outcome(
            model,
            *config,
            arithmetic,
            default_eos@,
            prompt_token_ids@,
            generation,
            result,
        ),
{
    let mut generation = generation;
    if generation.eos_token_ids.len() == 0 {
        generation.eos_token_ids = copy_tokens(default_eos);
    }
    generate_sampled(model, config, prompt_token_ids, &generation, arithmetic)
}

/// What showing generated tokens as text comes to: both the whole sequence and the new part are
/// decoded, and the first failure of the two is reported.
pub open spec fn shown_as_text(
    tokenizer: Tokenizer,
    skip_special_tokens: bool,
    output: TokenGenerationOutput,
    result: Result<GeneratedText, HuggingFaceLoadError>,
) -> bool {
    exists|whole: Result<String, HuggingFaceLoadError>, new: Result<String, HuggingFaceLoadError>|
        #[trigger] decoded(tokenizer, output.token_ids@, skip_special_tokens, whole)
            && #[trigger] decoded(
            tokenizer,
            output.generated_token_ids@,
            skip_special_tokens,
            new,
        ) && match (whole, new) {
            (Err(error), _) => result == Err::<GeneratedText, HuggingFaceLoadError>(error),
            (Ok(_), Err(error)) => result == Err::<GeneratedText, HuggingFaceLoadError>(error),
            (Ok(whole), Ok(new)) => result matches Ok(text) && text.text == whole
                && text.generated_text == new && text.token_ids@ == output.token_ids@
                && text.generated_token_ids@ == output.generated_token_ids@ && text.stopped_on_eos
                == output.stopped_on_eos,
        }
}

fn show_as_text(tokenizer: &Tokenizer, skip_special_tokens: bool, output: TokenGenerationOutput) -> (result:
    Result<GeneratedText, HuggingFaceLoadError>)
    ensures
        shown_as_text(*tokenizer, skip_special_tokens, output, result),
{
    let whole = decode(tokenizer, &output.token_ids, skip_special_tokens);
    let new = decode(tokenizer, &output.generated_token_ids, skip_special_tokens);
    assert(decoded(*tokenizer, output.token_ids@, skip_special_tokens, whole));
    assert(decoded(*tokenizer, output.generated_token_ids@, skip_special_tokens, new));
    match whole {
        Err(error) => Err(error),
        Ok(text) => match new {
            Err(error) => Err(error),
            Ok(generated_text) => Ok(
                GeneratedText {
                    text,
                    generated_text,
                    token_ids: output.token_ids,
                    generated_token_ids: output.generated_token_ids,
                    stopped_on_eos: output.stopped_on_eos,
                },
            ),
        },
    }
}

/// What generating text comes to: a failure of the tokenizer, of the model, or the text.
pub open spec fn text_outcome<M: CausalModel>(
    model: &M,
    config: LlamaConfig,
    default_eos: Seq<i32>,
    tokenizer: Tokenizer,
    prompt: Seq<char>,
    generation: GreedyGenerationConfig,
    add_special_tokens: bool,
    skip_special_tokens: bool,
    result: Result<GeneratedText, HuggingFaceLoadError>,
) -> bool {
    exists|ids: Result<Vec<i32>, HuggingFaceLoadError>| #[trigger]
        encodes(tokenizer, prompt, add_special_tokens, ids) && match ids {
            Err(error) => result == Err::<GeneratedText, HuggingFaceLoadError>(error),
            Ok(ids) => exists|output: Result<TokenGenerationOutput, GenerationError>| #[trigger]
                tokens_outcome(model, config, default_eos, ids@, generation, output)
                    && match output {
                    Err(failure) => result matches Err(error) && error.0@ == failure.0@,
                    Ok(output) => shown_as_text(tokenizer, skip_special_tokens, output, result),
                },
        }
}

/// What generating text by sampling comes to.
pub open spec fn sampled_text_outcome<M: CausalModel, A: SamplingArithmetic>(
    model: &M,
    config: LlamaConfig,
    arithmetic: &A,
    default_eos: Seq<i32>,
    tokenizer: Tokenizer,
    prompt: Seq<char>,
    generation: SamplingGenerationConfig,
    add_special_tokens: bool,
    skip_special_tokens: bool,
    result: Result<GeneratedText, HuggingFaceLoadError>,
) -> bool {
    exists|ids: Result<Vec<i32>, HuggingFaceLoadError>| #[trigger]
        encodes(tokenizer, prompt, add_special_tokens, ids) && match ids {
            Err(error) => result == Err::<GeneratedText, HuggingFaceLoadError>(error),
            Ok(ids) => exists|output: Result<TokenGenerationOutput, GenerationError>| #[trigger]
                sampled_outcome(model, config, arithmetic, default_eos, ids@, generation, output)
                    && match output {
                    Err(failure) => result matches Err(error) && error.0@ == failure.0@,
                    Ok(output) => shown_as_text(tokenizer, skip_special_tokens, output, result),
                },
        }
}

fn text_with_default<M: CausalModel>(
    model: &M,
    config: &LlamaConfig,
    default_eos: &Vec<i32>,
    tokenizer: &Tokenizer,
    prompt: &str,
    generation: GreedyGenerationConfig,
    add_special_tokens: bool,
    skip_special_tokens: bool,
) -> (result: Result<GeneratedText, HuggingFaceLoadError>)
    ensures
        text_outcome(
            model,
            *config,
            default_eos@,
            *tokenizer,
            prompt@,
            generation,
            add_special_tokens,
            skip_special_tokens,
            result,
        ),
{
    let encoding = encode(tokenizer, prompt, add_special_tokens);
    assert(encodes(*tokenizer, prompt@, add_special_tokens, encoding));
    let ids = match encoding {
        Ok(ids) => ids,
        Err(error) => {
            return Err(error);
        },
    };
    let output = tokens_with_default(model, config, default_eos, &ids, generation);
    assert(tokens_outcome(model, *config, default_eos@, ids@, generation, output));
    match output {
        Ok(output) => show_as_text(tokenizer, skip_special_tokens, output),
        Err(error) => Err(HuggingFaceLoadError(error.0)),
    }
}

fn sampled_text_with_default<M: CausalModel, A: SamplingArithmetic>(
    model: &M,
    config: &LlamaConfig,
    arithmetic: &A,
    default_eos: &Vec<i32>,
    tokenizer: &Tokenizer,
    prompt: &str,
    generation: SamplingGenerationConfig,
    add_special_tokens: bool,
    skip_special_tokens: bool,
) -> (result: Result<GeneratedText, HuggingFaceLoadError>)
    requires
        usable(arithmetic),
    ensures
        sampled_text_outcome(
            model,
            *config,
            arithmetic,
            default_eos@,
            *tokenizer,
            prompt@,
            generation,
            add_special_tokens,
            skip_special_tokens,
            result,
        ),
{
    let encoding = encode(tokenizer, prompt, add_special_tokens);
    assert(encodes(*tokenizer, prompt@, add_special_tokens, encoding));
    let ids = match encoding {
        Ok(ids) => ids,
        Err(error) => {
            return Err(error);
        },
    };
    let output = sampled_with_default(model, config, arithmetic, default_eos, &ids, generation);
    assert(sampled_outcome(model, *config, arithmetic, default_eos@, ids@, generation, output));
    match output {
        Ok(output) => show_as_text(tokenizer, skip_special_tokens, output),
        Err(error) => Err(HuggingFaceLoadError(error.0)),
    }
}

/// What encoding a chat comes to: the rendered prompt, tokenized without special tokens of the
/// tokenizer's own.
pub open spec fn chat_encodes(
    tokenizer: Tokenizer,
    messages: Seq<Qwen2ChatMessage>,
    add_generation_prompt: bool,
    result: Result<Vec<i32>, HuggingFaceLoadError>,
) -> bool {
    if messages.len() == 0 {
        result matches Err(error) && error.0@ == "Qwen chat requires at least one message"@
    } else {
        encodes(tokenizer, chat_text(messages, add_generation_prompt), false, result)
    }
}

fn encode_messages(tokenizer: &Tokenizer, messages: &[Qwen2ChatMessage], add_generation_prompt: bool) -> (result:
    Result<Vec<i32>, HuggingFaceLoadError>)
    ensures
        chat_encodes(*tokenizer, messages@, add_generation_prompt, result),
{
    match render_qwen2_chat_messages(messages, add_generation_prompt) {
        Ok(prompt) => encode(tokenizer, prompt.as_str(), false),
        Err(error) => Err(error),
    }
}

/// What joining a Qwen tokenizer with its model comes to: refused where the tokenizer has a token
/// that the model has not.
pub open spec fn vocabulary_fault(tokenizer: Tokenizer, vocabulary: usize, message: Seq<char>) -> bool {
    exists|token: Seq<char>| #[trigger]
        tokenizer_vocab(tokenizer).contains_key(token) && tokenizer_vocab(tokenizer)[token]
            >= vocabulary && message == outside_vocabulary(
            token,
            tokenizer_vocab(tokenizer)[token],
            vocabulary,
        )
}

/// Every token of a tokenizer is in a vocabulary.
pub open spec fn vocabulary_fits(tokenizer: Tokenizer, vocabulary: usize) -> bool {
    forall|token: Seq<char>| #[trigger]
        tokenizer_vocab(tokenizer).contains_key(token) ==> tokenizer_vocab(tokenizer)[token]
            < vocabulary
}

/// Join a model with its local `tokenizer.json`, whose vocabulary has to be the model's.
pub fn load_huggingface_llama_pipeline<M>(
    tokenizer: Tokenizer,
    loaded: LoadedHuggingFaceLlama<M>,
) -> (result: Result<HuggingFaceLlamaPipeline<M>, HuggingFaceLoadError>)
    ensures
        match result {
            Ok(pipeline) => pipeline.loaded == loaded && pipeline.tokenizer == tokenizer
                && tokenizer_vocab_size(tokenizer) == loaded.config.vocab_size,
            Err(error) => tokenizer_vocab_size(tokenizer) != loaded.config.vocab_size && error.0@
                == "tokenizer vocabulary "@ + decimal(tokenizer_vocab_size(tokenizer) as nat)
                + " does not equal model vocabulary "@ + decimal(loaded.config.vocab_size as nat)
                + ""@,
        },
{
    match validate_llama_vocabulary(&tokenizer, loaded.config.vocab_size) {
        Ok(_) => Ok(HuggingFaceLlamaPipeline { loaded, tokenizer }),
        Err(error) => Err(error),
    }
}

/// Join Qwen2/Qwen2.5 weights with their exact local `tokenizer.json` and chat template.
pub fn load_huggingface_qwen2_pipeline<M>(
    tokenizer: Tokenizer,
    chat_template: String,
    loaded: LoadedHuggingFaceQwen2<M>,
) -> (result: Result<HuggingFaceQwen2Pipeline<M>, HuggingFaceLoadError>)
    ensures
        match result {
            Ok(pipeline) => pipeline.loaded == loaded && pipeline.tokenizer == tokenizer
                && pipeline.chat_template == chat_template && vocabulary_fits(
                tokenizer,
                loaded.config.vocab_size,
            ),
            Err(error) => vocabulary_fault(tokenizer, loaded.config.vocab_size, error.0@),
        },
{
    match validate_qwen_vocabulary(&tokenizer, loaded.config.vocab_size) {
        Ok(_) => Ok(HuggingFaceQwen2Pipeline { loaded, tokenizer, chat_template }),
        Err(error) => Err(error),
    }
}

/// Join quantized Qwen2/Qwen2.5 weights with their exact local `tokenizer.json` and chat template.
pub fn load_huggingface_awq_qwen2_pipeline<M>(
    tokenizer: Tokenizer,
    chat_template: String,
    loaded: LoadedHuggingFaceAwqQwen2<M>,
) -> (result: Result<HuggingFaceAwqQwen2Pipeline<M>, HuggingFaceLoadError>)
    ensures
        match result {
            Ok(pipeline) => pipeline.loaded == loaded && pipeline.tokenizer == tokenizer
                && pipeline.chat_template == chat_template && vocabulary_fits(
                tokenizer,
                loaded.config.vocab_size,
            ),
            Err(error) => vocabulary_fault(tokenizer, loaded.config.vocab_size, error.0@),
        },
{
    match validate_qwen_vocabulary(&tokenizer, loaded.config.vocab_size) {
        Ok(_) => Ok(HuggingFaceAwqQwen2Pipeline { loaded, tokenizer, chat_template }),
        Err(error) => Err(error),
    }
}

impl<M: CausalModel> LoadedHuggingFaceLlama<M> {
    /// Decode token IDs with the loaded model. An empty EOS list inherits the
    /// exact `eos_token_id` value from Hugging Face `config.json`.
    pub fn generate_tokens(&self, prompt_token_ids: &[i32], generation: GreedyGenerationConfig) -> (result:
        Result<TokenGenerationOutput, GenerationError>)
        ensures
            tokens_outcome(
                &self.model,
                self.config,
                self.default_eos_token_ids@,
                prompt_token_ids@,
                generation,
                result,
            ),
    {
        tokens_with_default(
            &self.model,
            &self.config,
            &self.default_eos_token_ids,
            prompt_token_ids,
            generation,
        )
    }

    /// Sample with request-local RNG state and inherit the model's EOS IDs when omitted.
    pub fn generate_tokens_sampled<A: SamplingArithmetic>(
        &self,
        prompt_token_ids: &[i32],
        generation: SamplingGenerationConfig,
        arithmetic: &A,
    ) -> (result: Result<TokenGenerationOutput, GenerationError>)
        requires
            usable(arithmetic),
        ensures
            sampled_outcome(
                &self.model,
                self.config,
                arithmetic,
                self.default_eos_token_ids@,
                prompt_token_ids@,
                generation,
                result,
            ),
    {
        sampled_with_default(
            &self.model,
            &self.config,
            arithmetic,
            &self.default_eos_token_ids,
            prompt_token_ids,
            generation,
        )
    }
}

impl<M: CausalModel> LoadedHuggingFaceQwen2<M> {
    /// Decode with Qwen's architecture-specific model. An empty EOS list
    /// inherits the exact scalar or list value from `config.json`.
    pub fn generate_tokens(&self, prompt_token_ids: &[i32], generation: GreedyGenerationConfig) -> (result:
        Result<TokenGenerationOutput, GenerationError>)
        ensures
            tokens_outcome(
                &self.model,
                self.config,
                self.default_eos_token_ids@,
                prompt_token_ids@,
                generation,
                result,
            ),
    {
        tokens_with_default(
            &self.model,
            &self.config,
            &self.default_eos_token_ids,
            prompt_token_ids,
            generation,
        )
    }

    /// Sample with request-local RNG state and inherit the model's EOS IDs when omitted.
    pub fn generate_tokens_sampled<A: SamplingArithmetic>(
        &self,
        prompt_token_ids: &[i32],
        generation: SamplingGenerationConfig,
        arithmetic: &A,
    ) -> (result: Result<TokenGenerationOutput, GenerationError>)
        requires
            usable(arithmetic),
        ensures
            sampled_outcome(
                &self.model,
                self.config,
                arithmetic,
                self.default_eos_token_ids@,
                prompt_token_ids@,
                generation,
                result,
            ),
    {
        sampled_with_default(
            &self.model,
            &self.config,
            arithmetic,
            &self.default_eos_token_ids,
            prompt_token_ids,
            generation,
        )
    }
}

impl<M: CausalModel> LoadedHuggingFaceAwqQwen2<M> {
    /// Decode with the quantized model. An empty EOS list inherits the model's EOS IDs.
    pub fn generate_tokens(&self, prompt_token_ids: &[i32], generation: GreedyGenerationConfig) -> (result:
        Result<TokenGenerationOutput, GenerationError>)
        ensures
            tokens_outcome(
                &self.model,
                self.config,
                self.default_eos_token_ids@,
                prompt_token_ids@,
                generation,
                result,
            ),
    {
        tokens_with_default(
            &self.model,
            &self.config,
            &self.default_eos_token_ids,
            prompt_token_ids,
            generation,
        )
    }

    /// Sample with request-local RNG state and inherit the model's EOS IDs when omitted.
    pub fn generate_tokens_sampled<A: SamplingArithmetic>(
        &self,
        prompt_token_ids: &[i32],
        generation: SamplingGenerationConfig,
        arithmetic: &A,
    ) -> (result: Result<TokenGenerationOutput, GenerationError>)
        requires
            usable(arithmetic),
        ensures
            sampled_outcome(
                &self.model,
                self.config,
                arithmetic,
                self.default_eos_token_ids@,
                prompt_token_ids@,
                generation,
                result,
            ),
    {
        sampled_with_default(
            &self.model,
            &self.config,
            arithmetic,
            &self.default_eos_token_ids,
            prompt_token_ids,
            generation,
        )
    }
}

impl<M: CausalModel> HuggingFaceLlamaPipeline<M> {
    pub fn encode(&self, text: &str, add_special_tokens: bool) -> (result: Result<
        Vec<i32>,
        HuggingFaceLoadError,
    >)
        ensures
            encodes(self.tokenizer, text@, add_special_tokens, result),
    {
        encode(&self.tokenizer, text, add_special_tokens)
    }

    pub fn decode(&self, token_ids: &[i32], skip_special_tokens: bool) -> (result: Result<
        String,
        HuggingFaceLoadError,
    >)
        ensures
            decoded(self.tokenizer, token_ids@, skip_special_tokens, result),
    {
        decode(&self.tokenizer, token_ids, skip_special_tokens)
    }

    /// Tokenize a batch-one prompt, run cached greedy generation, and decode
    /// both the full sequence and newly generated suffix.
    pub fn generate_text(
        &self,
        prompt: &str,
        generation: GreedyGenerationConfig,
        add_special_tokens: bool,
        skip_special_tokens: bool,
    ) -> (result: Result<GeneratedText, HuggingFaceLoadError>)
        ensures
            text_outcome(
                &self.loaded.model,
                self.loaded.config,
                self.loaded.default_eos_token_ids@,
                self.tokenizer,
                prompt@,
                generation,
                add_special_tokens,
                skip_special_tokens,
                result,
            ),
    {
        text_with_default(
            &self.loaded.model,
            &self.loaded.config,
            &self.loaded.default_eos_token_ids,
            &self.tokenizer,
            prompt,
            generation,
            add_special_tokens,
            skip_special_tokens,
        )
    }

    /// Tokenize, run cached sampled decoding, and decode the generated text.
    pub fn generate_text_sampled<A: SamplingArithmetic>(
        &self,
        prompt: &str,
        generation: SamplingGenerationConfig,
        add_special_tokens: bool,
        skip_special_tokens: bool,
        arithmetic: &A,
    ) -> (result: Result<GeneratedText, HuggingFaceLoadError>)
        requires
            usable(arithmetic),
        ensures
            sampled_text_outcome(
                &self.loaded.model,
                self.loaded.config,
                arithmetic,
                self.loaded.default_eos_token_ids@,
                self.tokenizer,
                prompt@,
                generation,
                add_special_tokens,
                skip_special_tokens,
                result,
            ),
    {
        sampled_text_with_default(
            &self.loaded.model,
            &self.loaded.config,
            arithmetic,
            &self.loaded.default_eos_token_ids,
            &self.tokenizer,
            prompt,
            generation,
            add_special_tokens,
            skip_special_tokens,
        )
    }
}

impl<M: CausalModel> HuggingFaceQwen2Pipeline<M> {
    pub fn encode(&self, text: &str, add_special_tokens: bool) -> (result: Result<
        Vec<i32>,
        HuggingFaceLoadError,
    >)
        ensures
            encodes(self.tokenizer, text@, add_special_tokens, result),
    {
        encode(&self.tokenizer, text, add_special_tokens)
    }

    pub fn decode(&self, token_ids: &[i32], skip_special_tokens: bool) -> (result: Result<
        String,
        HuggingFaceLoadError,
    >)
        ensures
            decoded(self.tokenizer, token_ids@, skip_special_tokens, result),
    {
        decode(&self.tokenizer, token_ids, skip_special_tokens)
    }

    /// Render the no-tools, plain-text branch of Qwen2/Qwen2.5's ChatML
    /// template. Tool calls are deliberately not approximated by this API.
    pub fn render_chat(&self, messages: &[Qwen2ChatMessage], add_generation_prompt: bool) -> (result:
        Result<String, HuggingFaceLoadError>)
        ensures
            match result {
                Ok(prompt) => messages@.len() > 0 && prompt@ == chat_text(
                    messages@,
                    add_generation_prompt,
                ),
                Err(error) => messages@.len() == 0 && error.0@
                    == "Qwen chat requires at least one message"@,
            },
    {
        render_qwen2_chat_messages(messages, add_generation_prompt)
    }

    pub fn encode_chat(&self, messages: &[Qwen2ChatMessage], add_generation_prompt: bool) -> (result:
        Result<Vec<i32>, HuggingFaceLoadError>)
        ensures
            chat_encodes(self.tokenizer, messages@, add_generation_prompt, result),
    {
        encode_messages(&self.tokenizer, messages, add_generation_prompt)
    }

    /// Tokenize a batch-one prompt, run cached greedy generation, and decode
    /// both the full sequence and newly generated suffix.
    pub fn generate_text(
        &self,
        prompt: &str,
        generation: GreedyGenerationConfig,
        add_special_tokens: bool,
        skip_special_tokens: bool,
    ) -> (result: Result<GeneratedText, HuggingFaceLoadError>)
        ensures
            text_outcome(
                &self.loaded.model,
                self.loaded.config,
                self.loaded.default_eos_token_ids@,
                self.tokenizer,
                prompt@,
                generation,
                add_special_tokens,
                skip_special_tokens,
                result,
            ),
    {
        text_with_default(
            &self.loaded.model,
            &self.loaded.config,
            &self.loaded.default_eos_token_ids,
            &self.tokenizer,
            prompt,
            generation,
            add_special_tokens,
            skip_special_tokens,
        )
    }

    /// Tokenize, run cached sampled decoding, and decode the generated text.
    pub fn generate_text_sampled<A: SamplingArithmetic>(
        &self,
        prompt: &str,
        generation: SamplingGenerationConfig,
        add_special_tokens: bool,
        skip_special_tokens: bool,
        arithmetic: &A,
    ) -> (result: Result<GeneratedText, HuggingFaceLoadError>)
        requires
            usable(arithmetic),
        ensures
            sampled_text_outcome(
                &self.loaded.model,
                self.loaded.config,
                arithmetic,
                self.loaded.default_eos_token_ids@,
                self.tokenizer,
                prompt@,
                generation,
                add_special_tokens,
                skip_special_tokens,
                result,
            ),
    {
        sampled_text_with_default(
            &self.loaded.model,
            &self.loaded.config,
            arithmetic,
            &self.loaded.default_eos_token_ids,
            &self.tokenizer,
            prompt,
            generation,
            add_special_tokens,
            skip_special_tokens,
        )
    }
}

impl<M: CausalModel> HuggingFaceAwqQwen2Pipeline<M> {
    pub fn encode(&self, text: &str, add_special_tokens: bool) -> (result: Result<
        Vec<i32>,
        HuggingFaceLoadError,
    >)
        ensures
            encodes(self.tokenizer, text@, add_special_tokens, result),
    {
        encode(&self.tokenizer, text, add_special_tokens)
    }

    pub fn decode(&self, token_ids: &[i32], skip_special_tokens: bool) -> (result: Result<
        String,
        HuggingFaceLoadError,
    >)
        ensures
            decoded(self.tokenizer, token_ids@, skip_special_tokens, result),
    {
        decode(&self.tokenizer, token_ids, skip_special_tokens)
    }

    /// Render the no-tools, plain-text branch of Qwen2/Qwen2.5's ChatML
    /// template. Tool calls are deliberately not approximated by this API.
    pub fn render_chat(&self, messages: &[Qwen2ChatMessage], add_generation_prompt: bool) -> (result:
        Result<String, HuggingFaceLoadError>)
        ensures
            match result {
                Ok(prompt) => messages@.len() > 0 && prompt@ == chat_text(
                    messages@,
                    add_generation_prompt,
                ),
                Err(error) => messages@.len() == 0 && error.0@
                    == "Qwen chat requires at least one message"@,
            },
    {
        render_qwen2_chat_messages(messages, add_generation_prompt)
    }

    pub fn encode_chat(&self, messages: &[Qwen2ChatMessage], add_generation_prompt: bool) -> (result:
        Result<Vec<i32>, HuggingFaceLoadError>)
        ensures
            chat_encodes(self.tokenizer, messages@, add_generation_prompt, result),
    {
        encode_messages(&self.tokenizer, messages, add_generation_prompt)
    }

    /// Tokenize a batch-one prompt, run cached greedy generation, and decode
    /// both the full sequence and newly generated suffix.
    pub fn generate_text(
        &self,
        prompt: &str,
        generation: GreedyGenerationConfig,
        add_special_tokens: bool,
        skip_special_tokens: bool,
    ) -> (result: Result<GeneratedText, HuggingFaceLoadError>)
        ensures
            text_outcome(
                &self.loaded.model,
                self.loaded.config,
                self.loaded.default_eos_token_ids@,
                self.tokenizer,
                prompt@,
                generation,
                add_special_tokens,
                skip_special_tokens,
                result,
            ),
    {
        text_with_default(
            &self.loaded.model,
            &self.loaded.config,
            &self.loaded.default_eos_token_ids,
            &self.tokenizer,
            prompt,
            generation,
            add_special_tokens,
            skip_special_tokens,
        )
    }

    /// Tokenize, run cached sampled decoding, and decode the generated text.
    pub fn generate_text_sampled<A: SamplingArithmetic>(
        &self,
        prompt: &str,
        generation: SamplingGenerationConfig,
        add_special_tokens: bool,
        skip_special_tokens: bool,
        arithmetic: &A,
    ) -> (result: Result<GeneratedText, HuggingFaceLoadError>)
        requires
            usable(arithmetic),
        ensures
            sampled_text_outcome(
                &self.loaded.model,
                self.loaded.config,
                arithmetic,
                self.loaded.default_eos_token_ids@,
                self.tokenizer,
                prompt@,
                generation,
                add_special_tokens,
                skip_special_tokens,
                result,
            ),
    {
        sampled_text_with_default(
            &self.loaded.model,
            &self.loaded.config,
            arithmetic,
            &self.loaded.default_eos_token_ids,
            &self.tokenizer,
            prompt,
            generation,
            add_special_tokens,
            skip_special_tokens,
        )
    }
}

} // verus!
