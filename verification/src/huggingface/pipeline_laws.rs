//! What a loaded model and its tokenizer return together.

use crate::generation::endings::{ends_in, ends_not_before_last, law_plain_request_ends_once};
use crate::generation::sampling::{SamplerModel, SamplingArithmetic, SamplingGenerationConfig};
use crate::generation::{
    fresh_sampler, plain_outcome, CausalModel, CausalModelLimits,
    GenerationError, GreedyGenerationConfig, GreedyOnly, TokenGenerationOutput,
};
use crate::huggingface::chat::{chat_text, message_text, messages_text, Qwen2ChatMessage};
use crate::huggingface::pipeline::{
    chat_encodes, sampled_outcome, sampled_text_outcome, shown_as_text, text_outcome,
    tokens_outcome, GeneratedText,
};
use crate::huggingface::tokenizer::{
    answer_of, decoded, encoded, encodes, first_negative, ids_of,
    tokenizer_decode, tokenizer_may_encode,
};
use crate::huggingface::HuggingFaceLoadError;
use crate::llama::LlamaConfig;
use tokenizers::Tokenizer;
use vstd::prelude::*;

verus! {

/// What some end tokens make of a request for at most `max_new_tokens` tokens: none of the tokens
/// but the last is an end token, the request is marked as stopped exactly where the last one is, and
/// it has as many tokens as it asked for otherwise.
pub open spec fn ends_by(
    eos: Seq<i32>,
    max_new_tokens: usize,
    generated: Seq<i32>,
    stopped_on_eos: bool,
) -> bool {
    &&& ends_not_before_last(max_new_tokens, eos, Seq::empty(), generated)
    &&& stopped_on_eos == ends_in(eos, generated)
    &&& !stopped_on_eos ==> generated.len() == max_new_tokens
}

/// A request that brings no end tokens of its own ends by those of the model; one that brings some
/// ends by them alone.
pub proof fn law_requests_inherit_end_tokens<M: CausalModel>(
    model: &M,
    config: LlamaConfig,
    default_eos: Seq<i32>,
    prompt: Seq<i32>,
    generation: GreedyGenerationConfig,
    output: TokenGenerationOutput,
)
    requires
        tokens_outcome(model, config, default_eos, prompt, generation, Ok(output)),
    ensures
        output.token_ids@ == prompt + output.generated_token_ids@,
        generation.eos_token_ids@.len() == 0 ==> ends_by(
            default_eos,
            generation.max_new_tokens,
            output.generated_token_ids@,
            output.stopped_on_eos,
        ),
        generation.eos_token_ids@.len() > 0 ==> ends_by(
            generation.eos_token_ids@,
            generation.max_new_tokens,
            output.generated_token_ids@,
            output.stopped_on_eos,
        ),
{
    let eos = crate::huggingface::pipeline::inherited(generation.eos_token_ids@, default_eos);
    law_plain_request_ends_once(
        model,
        CausalModelLimits {
            vocab_size: config.vocab_size,
            max_sequence_length: config.max_sequence_length,
        },
        &GreedyOnly,
        None,
        prompt,
        generation.max_new_tokens,
        eos,
        output,
    );
}

/// As `law_requests_inherit_end_tokens`, for sampling.
pub proof fn law_sampled_requests_inherit_end_tokens<M: CausalModel, A: SamplingArithmetic>(
    model: &M,
    config: LlamaConfig,
    arithmetic: &A,
    default_eos: Seq<i32>,
    prompt: Seq<i32>,
    generation: SamplingGenerationConfig,
    output: TokenGenerationOutput,
)
    requires
        sampled_outcome(model, config, arithmetic, default_eos, prompt, generation, Ok(output)),
    ensures
        output.token_ids@ == prompt + output.generated_token_ids@,
        generation.eos_token_ids@.len() == 0 ==> ends_by(
            default_eos,
            generation.max_new_tokens,
            output.generated_token_ids@,
            output.stopped_on_eos,
        ),
        generation.eos_token_ids@.len() > 0 ==> ends_by(
            generation.eos_token_ids@,
            generation.max_new_tokens,
            output.generated_token_ids@,
            output.stopped_on_eos,
        ),
{
    let eos = crate::huggingface::pipeline::inherited(generation.eos_token_ids@, default_eos);
    let limits = CausalModelLimits {
        vocab_size: config.vocab_size,
        max_sequence_length: config.max_sequence_length,
    };
    let sampler = choose|sampler: SamplerModel| #[trigger]
        fresh_sampler(generation.sampling, sampler) && plain_outcome(
            model,
            limits,
            arithmetic,
            Some(sampler),
            prompt,
            generation.max_new_tokens,
            eos,
            Ok(output),
        );
    law_plain_request_ends_once(
        model,
        limits,
        arithmetic,
        Some(sampler),
        prompt,
        generation.max_new_tokens,
        eos,
        output,
    );
}

/// The numbers of some identifiers, as tokens.
pub open spec fn same_numbers(ids: Seq<u32>, tokens: Seq<i32>) -> bool {
    tokens.len() == ids.len() && forall|i: int| 0 <= i < ids.len() ==> #[trigger] tokens[i] == ids[i]
}

/// A tokenizer reads some tokens as this text: all of them are identifiers, and the text is what the
/// tokenizer decodes them to.
pub open spec fn reads_as(
    tokenizer: Tokenizer,
    tokens: Seq<i32>,
    skip_special_tokens: bool,
    text: Seq<char>,
) -> bool {
    exists|ids: Seq<u32>|
        same_numbers(ids, tokens) && #[trigger] tokenizer_decode(
            tokenizer,
            ids,
            skip_special_tokens,
        ) == Ok::<Seq<char>, Seq<char>>(text)
}

proof fn lemma_encodes_numbers(
    tokenizer: Tokenizer,
    text: Seq<char>,
    add_special_tokens: bool,
    tokens: Vec<i32>,
)
    requires
        encodes(tokenizer, text, add_special_tokens, Ok(tokens)),
    ensures
        exists|ids: Seq<u32>|
            same_numbers(ids, tokens@) && #[trigger] tokenizer_may_encode(
                tokenizer,
                text,
                add_special_tokens,
                Ok(ids),
            ),
{
    let answer = choose|answer: Result<Vec<u32>, String>| #[trigger]
        encoded(answer, Ok(tokens)) && tokenizer_may_encode(
            tokenizer,
            text,
            add_special_tokens,
            answer_of(answer),
        );
    let ids = (answer->Ok_0)@;
    assert(same_numbers(ids, tokens@));
    assert(tokenizer_may_encode(tokenizer, text, add_special_tokens, Ok(ids)));
}

proof fn lemma_no_negative(tokens: Seq<i32>)
    ensures
        first_negative(tokens) is None ==> forall|i: int|
            0 <= i < tokens.len() ==> #[trigger] tokens[i] >= 0,
    decreases tokens.len(),
{
    if tokens.len() > 0 {
        let fewer = tokens.drop_last();
        lemma_no_negative(fewer);
        if first_negative(tokens) is None {
            assert forall|i: int| 0 <= i < tokens.len() implies #[trigger] tokens[i] >= 0 by {
                if i < fewer.len() {
                    assert(fewer[i] == tokens[i]);
                }
            }
        }
    }
}

proof fn lemma_decoded_reads(
    tokenizer: Tokenizer,
    tokens: Seq<i32>,
    skip_special_tokens: bool,
    text: String,
)
    requires
        decoded(tokenizer, tokens, skip_special_tokens, Ok(text)),
    ensures
        reads_as(tokenizer, tokens, skip_special_tokens, text@),
{
    lemma_no_negative(tokens);
    let ids = ids_of(tokens);
    assert(same_numbers(ids, tokens));
    assert(tokenizer_decode(tokenizer, ids, skip_special_tokens) == Ok::<Seq<char>, Seq<char>>(
        text@,
    ));
}

/// What generated text is: its tokens are an encoding of the prompt and the generated ones, and its
/// texts are what the tokenizer reads all tokens and the generated ones as.
pub open spec fn speaks(
    tokenizer: Tokenizer,
    prompt: Seq<char>,
    add_special_tokens: bool,
    skip_special_tokens: bool,
    text: GeneratedText,
) -> bool {
    &&& reads_as(tokenizer, text.token_ids@, skip_special_tokens, text.text@)
    &&& reads_as(tokenizer, text.generated_token_ids@, skip_special_tokens, text.generated_text@)
    &&& exists|ids: Seq<u32>, start: Seq<i32>| #[trigger]
        tokenizer_may_encode(tokenizer, prompt, add_special_tokens, Ok(ids)) && #[trigger]
        same_numbers(ids, start) && text.token_ids@ == start + text.generated_token_ids@
}

proof fn lemma_speaks(
    tokenizer: Tokenizer,
    prompt: Seq<char>,
    add_special_tokens: bool,
    skip_special_tokens: bool,
    ids: Vec<i32>,
    output: TokenGenerationOutput,
    text: GeneratedText,
)
    requires
        encodes(tokenizer, prompt, add_special_tokens, Ok(ids)),
        output.token_ids@ == ids@ + output.generated_token_ids@,
        shown_as_text(tokenizer, skip_special_tokens, output, Ok(text)),
    ensures
        speaks(tokenizer, prompt, add_special_tokens, skip_special_tokens, text),
        text.generated_token_ids@ == output.generated_token_ids@,
        text.stopped_on_eos == output.stopped_on_eos,
{
    lemma_encodes_numbers(tokenizer, prompt, add_special_tokens, ids);
    lemma_decoded_reads(tokenizer, output.token_ids@, skip_special_tokens, text.text);
    lemma_decoded_reads(
        tokenizer,
        output.generated_token_ids@,
        skip_special_tokens,
        text.generated_text,
    );
}

/// Generating text encodes the prompt, generates from it until an end token or the limit, with the
/// model's end tokens where the request brings none, and reads the tokens as text.
pub proof fn law_text_is_generated_from_the_prompt<M: CausalModel>(
    model: &M,
    config: LlamaConfig,
    default_eos: Seq<i32>,
    tokenizer: Tokenizer,
    prompt: Seq<char>,
    generation: GreedyGenerationConfig,
    add_special_tokens: bool,
    skip_special_tokens: bool,
    text: GeneratedText,
)
    requires
        text_outcome(
            model,
            config,
            default_eos,
            tokenizer,
            prompt,
            generation,
            add_special_tokens,
            skip_special_tokens,
            Ok(text),
        ),
    ensures
        speaks(tokenizer, prompt, add_special_tokens, skip_special_tokens, text),
        generation.eos_token_ids@.len() == 0 ==> ends_by(
            default_eos,
            generation.max_new_tokens,
            text.generated_token_ids@,
            text.stopped_on_eos,
        ),
        generation.eos_token_ids@.len() > 0 ==> ends_by(
            generation.eos_token_ids@,
            generation.max_new_tokens,
            text.generated_token_ids@,
            text.stopped_on_eos,
        ),
{
    let ids = choose|ids: Result<Vec<i32>, HuggingFaceLoadError>| #[trigger]
        encodes(tokenizer, prompt, add_special_tokens, ids) && match ids {
            Err(error) => false,
            Ok(ids) => exists|output: Result<TokenGenerationOutput, GenerationError>| #[trigger]
                tokens_outcome(model, config, default_eos, ids@, generation, output)
                    && match output {
                    Err(failure) => false,
                    Ok(output) => shown_as_text(
                        tokenizer,
                        skip_special_tokens,
                        output,
                        Ok(text),
                    ),
                },
        };
    let start = ids->Ok_0;
    let output = choose|output: Result<TokenGenerationOutput, GenerationError>| #[trigger]
        tokens_outcome(model, config, default_eos, start@, generation, output) && match output {
            Err(failure) => false,
            Ok(output) => shown_as_text(tokenizer, skip_special_tokens, output, Ok(text)),
        };
    law_requests_inherit_end_tokens(
        model,
        config,
        default_eos,
        start@,
        generation,
        output->Ok_0,
    );
    lemma_speaks(
        tokenizer,
        prompt,
        add_special_tokens,
        skip_special_tokens,
        start,
        output->Ok_0,
        text,
    );
}

/// As `law_text_is_generated_from_the_prompt`, for sampling.
pub proof fn law_sampled_text_is_generated_from_the_prompt<M: CausalModel, A: SamplingArithmetic>(
    model: &M,
    config: LlamaConfig,
    arithmetic: &A,
    default_eos: Seq<i32>,
    tokenizer: Tokenizer,
    prompt: Seq<char>,
    generation: SamplingGenerationConfig,
    add_special_tokens: bool,
    skip_special_tokens: bool,
    text: GeneratedText,
)
    requires
        sampled_text_outcome(
            model,
            config,
            arithmetic,
            default_eos,
            tokenizer,
            prompt,
            generation,
            add_special_tokens,
            skip_special_tokens,
            Ok(text),
        ),
    ensures
        speaks(tokenizer, prompt, add_special_tokens, skip_special_tokens, text),
        generation.eos_token_ids@.len() == 0 ==> ends_by(
            default_eos,
            generation.max_new_tokens,
            text.generated_token_ids@,
            text.stopped_on_eos,
        ),
        generation.eos_token_ids@.len() > 0 ==> ends_by(
            generation.eos_token_ids@,
            generation.max_new_tokens,
            text.generated_token_ids@,
            text.stopped_on_eos,
        ),
{
    let ids = choose|ids: Result<Vec<i32>, HuggingFaceLoadError>| #[trigger]
        encodes(tokenizer, prompt, add_special_tokens, ids) && match ids {
            Err(error) => false,
            Ok(ids) => exists|output: Result<TokenGenerationOutput, GenerationError>| #[trigger]
                sampled_outcome(model, config, arithmetic, default_eos, ids@, generation, output)
                    && match output {
                    Err(failure) => false,
                    Ok(output) => shown_as_text(
                        tokenizer,
                        skip_special_tokens,
                        output,
                        Ok(text),
                    ),
                },
        };
    let start = ids->Ok_0;
    let output = choose|output: Result<TokenGenerationOutput, GenerationError>| #[trigger]
        sampled_outcome(model, config, arithmetic, default_eos, start@, generation, output)
            && match output {
            Err(failure) => false,
            Ok(output) => shown_as_text(tokenizer, skip_special_tokens, output, Ok(text)),
        };
    law_sampled_requests_inherit_end_tokens(
        model,
        config,
        arithmetic,
        default_eos,
        start@,
        generation,
        output->Ok_0,
    );
    lemma_speaks(
        tokenizer,
        prompt,
        add_special_tokens,
        skip_special_tokens,
        start,
        output->Ok_0,
        text,
    );
}

/// A chat grows by its messages: one more message is the marker of its role, its content as it
/// stands and the end marker; asking for an answer adds the marker of the assistant.
pub proof fn law_chat_grows_by_messages(messages: Seq<Qwen2ChatMessage>, message: Qwen2ChatMessage)
    requires
        messages.len() > 0,
    ensures
        chat_text(messages.push(message), false) == chat_text(messages, false) + "<|im_start|>"@
            + message.role.name() + "\n"@ + message.content@ + "<|im_end|>\n"@,
        chat_text(messages, true) == chat_text(messages, false) + "<|im_start|>assistant\n"@,
{
    let longer = messages.push(message);
    assert(longer.drop_last() =~= messages);
    assert(longer[0] == messages[0]);
    assert(messages_text(longer) == messages_text(messages) + message_text(
        message.role,
        message.content@,
    ));
    assert(chat_text(longer, false) =~= chat_text(messages, false) + "<|im_start|>"@
        + message.role.name() + "\n"@ + message.content@ + "<|im_end|>\n"@);
}

/// A chat is encoded as the text that it renders to, without special tokens of the tokenizer's own.
pub proof fn law_chat_is_encoded_as_rendered(
    tokenizer: Tokenizer,
    messages: Seq<Qwen2ChatMessage>,
    add_generation_prompt: bool,
    tokens: Vec<i32>,
)
    requires
        chat_encodes(tokenizer, messages, add_generation_prompt, Ok(tokens)),
    ensures
        messages.len() > 0,
        exists|ids: Seq<u32>|
            same_numbers(ids, tokens@) && #[trigger] tokenizer_may_encode(
                tokenizer,
                chat_text(messages, add_generation_prompt),
                false,
                Ok(ids),
            ),
{
    lemma_encodes_numbers(tokenizer, chat_text(messages, add_generation_prompt), false, tokens);
}

} // verus!
