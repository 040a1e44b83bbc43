//! What a configuration is read as, and which ones are accepted.

use crate::huggingface::config::{
    converted, generation_eos, geometry_fault, id_fault, id_values, ids_fault, ids_listed,
    llama_fault, qwen2_fault, HuggingFaceLlamaConfig, HuggingFaceTokenIds,
};
use crate::huggingface::HuggingFaceLoadError;
use crate::llama::LlamaConfig;
use vstd::prelude::*;

verus! {

/// The identifiers that a field gives: one, several or none.
pub open spec fn given(field: Option<HuggingFaceTokenIds>, id: int) -> bool {
    match field {
        None => false,
        Some(HuggingFaceTokenIds::One(value)) => value == id,
        Some(HuggingFaceTokenIds::Many(values)) => exists|i: int|
            0 <= i < values@.len() && #[trigger] values@[i] == id,
    }
}

/// Every identifier that a field gives is one of a vocabulary's tokens.
pub open spec fn all_tokens(field: Option<HuggingFaceTokenIds>, vocabulary: usize) -> bool {
    forall|id: int| #[trigger] given(field, id) ==> 0 <= id < vocabulary && id <= i32::MAX
}

/// Some end tokens are those that a field gives, in ascending order.
pub open spec fn ends_given(field: Option<HuggingFaceTokenIds>, eos: Seq<i32>) -> bool {
    &&& forall|i: int, j: int| 0 <= i < j < eos.len() ==> eos[i] < eos[j]
    &&& forall|i: int| 0 <= i < eos.len() ==> given(field, #[trigger] eos[i] as int)
    &&& forall|id: int| #[trigger]
        given(field, id) ==> exists|i: int| 0 <= i < eos.len() && #[trigger] eos[i] == id
}

/// The number of KV heads: that of the attention heads where the configuration gives none.
pub open spec fn kv_heads(source: HuggingFaceLlamaConfig) -> int {
    match source.num_key_value_heads {
        Some(heads) => heads as int,
        None => source.num_attention_heads as int,
    }
}

/// The bits of the base of the rotary encoding: those of ten thousand where the configuration gives
/// none.
pub open spec fn rotary_base(source: HuggingFaceLlamaConfig) -> u32 {
    match source.rope_theta {
        Some(bits) => bits,
        None => 0x461C_4000,
    }
}

/// Dimensions that a decoder can be built of: none is zero, the heads divide the width of the model
/// evenly into even parts, the KV heads divide the attention heads, and the small numbers are
/// finite and positive.
pub open spec fn buildable(source: HuggingFaceLlamaConfig) -> bool {
    let width = source.hidden_size as int;
    let heads = source.num_attention_heads as int;
    &&& source.vocab_size > 0 && width > 0 && source.intermediate_size > 0
    &&& source.num_hidden_layers > 0 && heads > 0 && kv_heads(source) > 0
    &&& source.max_position_embeddings > 0
    &&& width % heads == 0 && (width / heads) % 2 == 0 && heads % kv_heads(source) == 0
    &&& 0 < source.rms_norm_eps < 0x7FF0_0000_0000_0000
    &&& 0 < rotary_base(source) < 0x7F80_0000
    &&& source.head_dim matches Some(part) ==> part == width / heads
    &&& all_tokens(source.eos_token_id, source.vocab_size)
}

/// A field that says what is wanted, or nothing.
pub open spec fn says(field: Option<String>, wanted: Seq<char>) -> bool {
    field matches Some(text) ==> text@ == wanted
}

/// A list names an architecture.
pub open spec fn names_one(list: Seq<String>, wanted: Seq<char>) -> bool {
    exists|i: int| 0 <= i < list.len() && (#[trigger] list[i])@ == wanted
}

/// A dropout of zero, or none.
pub open spec fn drops_nothing(field: Option<u64>) -> bool {
    field matches Some(bits) ==> bits % 0x8000_0000_0000_0000 == 0
}

/// Identifiers without a fault are tokens of the vocabulary.
proof fn lemma_ids(values: Seq<i64>, vocabulary: usize)
    ensures
        ids_fault(values, vocabulary) is None <==> forall|i: int|
            0 <= i < values.len() ==> 0 <= #[trigger] values[i] < vocabulary && values[i]
                <= i32::MAX,
    decreases values.len(),
{
    if values.len() > 0 {
        let fewer = values.drop_last();
        lemma_ids(fewer, vocabulary);
        let last = values[values.len() - 1];
        assert(id_fault(last, vocabulary) is None <==> 0 <= last < vocabulary && last <= i32::MAX);
        if forall|i: int|
            0 <= i < values.len() ==> 0 <= #[trigger] values[i] < vocabulary && values[i]
                <= i32::MAX {
            assert forall|i: int| 0 <= i < fewer.len() implies 0 <= #[trigger] fewer[i] < vocabulary
                && fewer[i] <= i32::MAX by {
                assert(values[i] == fewer[i]);
            }
        }
        if forall|i: int|
            0 <= i < fewer.len() ==> 0 <= #[trigger] fewer[i] < vocabulary && fewer[i]
                <= i32::MAX {
            assert forall|i: int|
                0 <= i < values.len() && 0 <= last < vocabulary && last <= i32::MAX implies 0
                <= #[trigger] values[i] < vocabulary && values[i] <= i32::MAX by {
                if i < fewer.len() {
                    assert(values[i] == fewer[i]);
                }
            }
        }
    }
}

/// The identifiers of a field, one by one.
proof fn lemma_given(field: Option<HuggingFaceTokenIds>, vocabulary: usize)
    ensures
        forall|id: int| #[trigger]
            given(field, id) <==> i64::MIN <= id <= i64::MAX && id_values(field).contains(
                id as i64,
            ),
        ids_fault(id_values(field), vocabulary) is None <==> all_tokens(field, vocabulary),
{
    let values = id_values(field);
    lemma_ids(values, vocabulary);
    assert forall|id: int| #[trigger]
        given(field, id) <==> i64::MIN <= id <= i64::MAX && values.contains(id as i64) by {
        match field {
            None => {},
            Some(HuggingFaceTokenIds::One(value)) => {
                assert(values[0] == value);
            },
            Some(HuggingFaceTokenIds::Many(list)) => {
                if given(field, id) {
                    let i = choose|i: int| 0 <= i < list@.len() && #[trigger] list@[i] == id;
                    assert(values[i] == id as i64);
                }
            },
        }
    }
    if ids_fault(values, vocabulary) is None {
        assert forall|id: int| #[trigger] given(field, id) implies 0 <= id < vocabulary && id
            <= i32::MAX by {
            assert(values.contains(id as i64));
        }
    }
    if all_tokens(field, vocabulary) {
        assert forall|i: int| 0 <= i < values.len() implies 0 <= #[trigger] values[i] < vocabulary
            && values[i] <= i32::MAX by {
            assert(values.contains(values[i]));
            assert(given(field, values[i] as int));
        }
    }
}

/// A configuration that is read keeps every number that it gives, has as many KV heads as attention
/// heads and the customary rotary base where it gives none, ties its embeddings only where it says
/// so, and ends requests with the tokens that it names.
pub proof fn law_configurations_keep_their_numbers(
    source: HuggingFaceLlamaConfig,
    fault: Option<Seq<char>>,
    config: LlamaConfig,
    tied: bool,
    eos: Vec<i32>,
)
    requires
        fault == llama_fault(source) || fault == qwen2_fault(source),
        converted(source, fault, Ok((config, tied, eos))),
    ensures
        config.vocab_size == source.vocab_size,
        config.d_model == source.hidden_size,
        config.d_ff == source.intermediate_size,
        config.num_hidden_layers == source.num_hidden_layers,
        config.num_query_heads == source.num_attention_heads,
        config.num_kv_heads == kv_heads(source),
        config.max_sequence_length == source.max_position_embeddings,
        config.rms_norm_epsilon == source.rms_norm_eps,
        config.rope_theta == rotary_base(source),
        tied <==> source.tie_word_embeddings == Some(true),
        ends_given(source.eos_token_id, eos@),
{
    lemma_given(source.eos_token_id, source.vocab_size);
    lemma_ends(source.eos_token_id, eos@);
}

/// Listed identifiers are those that a field gives.
proof fn lemma_ends(field: Option<HuggingFaceTokenIds>, eos: Seq<i32>)
    requires
        ids_listed(id_values(field), eos),
        forall|i: int| 0 <= i < eos.len() ==> #[trigger] eos[i] >= 0,
        forall|id: int| #[trigger] given(field, id) ==> i32::MIN <= id <= i32::MAX,
    ensures
        ends_given(field, eos),
{
    let values = id_values(field);
    lemma_given(field, 0);
    assert forall|i: int| 0 <= i < eos.len() implies given(field, #[trigger] eos[i] as int) by {
        assert(eos.contains(eos[i]));
        assert(values.contains(eos[i] as i64));
    }
    assert forall|id: int| #[trigger] given(field, id) implies exists|i: int|
        0 <= i < eos.len() && #[trigger] eos[i] == id by {
        assert(values.contains(id as i64));
        assert((id as i32) as i64 == id as i64);
        assert(eos.contains(id as i32));
    }
}

/// The dimensions and identifiers of a configuration have no fault where a decoder can be built of
/// them.
proof fn lemma_buildable(source: HuggingFaceLlamaConfig)
    ensures
        geometry_fault(source) is None <==> buildable(source),
{
    lemma_given(source.eos_token_id, source.vocab_size);
}

/// A Llama configuration is accepted if and only if it says that it is one or says nothing of it, a
/// decoder can be built of its dimensions, and it asks for nothing that the decoder has not: another
/// activation, biases, dropout or a scaled rotary encoding.
pub proof fn law_llama_configurations_are_accepted(source: HuggingFaceLlamaConfig)
    ensures
        llama_fault(source) is None <==> {
            &&& says(source.model_type, "llama"@)
            &&& source.architectures matches Some(list) ==> names_one(list@, "LlamaForCausalLM"@)
            &&& says(source.hidden_act, "silu"@)
            &&& source.attention_bias != Some(true)
            &&& source.mlp_bias != Some(true)
            &&& drops_nothing(source.attention_dropout)
            &&& !source.rope_scaling
            &&& buildable(source)
        },
{
    lemma_buildable(source);
}

/// A Qwen2 configuration is accepted if and only if it says that it is one, a decoder can be built
/// of its dimensions, it does not do without the biases of its attention, and it asks for nothing
/// that the decoder has not: another activation, other biases, dropout, sliding windows, a scaled
/// rotary encoding or one for several modalities.
pub proof fn law_qwen2_configurations_are_accepted(source: HuggingFaceLlamaConfig)
    ensures
        qwen2_fault(source) is None <==> {
            &&& source.model_type is Some && says(source.model_type, "qwen2"@)
            &&& source.architectures matches Some(list) && names_one(list@, "Qwen2ForCausalLM"@)
            &&& says(source.hidden_act, "silu"@)
            &&& source.attention_bias != Some(false)
            &&& source.mlp_bias != Some(true)
            &&& drops_nothing(source.attention_dropout)
            &&& source.use_sliding_window != Some(true)
            &&& source.use_mrope != Some(true)
            &&& !source.rope_scaling && !source.rope_parameters
            &&& buildable(source)
        },
{
    lemma_buildable(source);
}

/// The end tokens of a model are those that `generation_config.json` names where it names any, each
/// a token of the vocabulary; and those of the model's own configuration otherwise.
pub proof fn law_generation_end_tokens_take_precedence(
    generation: Option<Option<HuggingFaceTokenIds>>,
    vocabulary: usize,
    config_eos: Seq<i32>,
    result: Result<Vec<i32>, HuggingFaceLoadError>,
)
    requires
        generation_eos(generation, vocabulary, config_eos, result),
    ensures
        match generation {
            Some(Some(ids)) => {
                &&& result is Ok <==> all_tokens(Some(ids), vocabulary)
                &&& result matches Ok(eos) ==> ends_given(Some(ids), eos@)
            },
            _ => result matches Ok(eos) && eos@ == config_eos,
        },
{
    if let Some(Some(ids)) = generation {
        lemma_given(Some(ids), vocabulary);
        if let Ok(eos) = result {
            let values = id_values(Some(ids));
            assert forall|i: int| 0 <= i < eos@.len() implies #[trigger] eos@[i] >= 0 by {
                assert(eos@.contains(eos@[i]));
                assert(values.contains(eos@[i] as i64));
                assert(given(Some(ids), eos@[i] as int));
            }
            lemma_ends(Some(ids), eos@);
        }
    }
}

} // verus!
