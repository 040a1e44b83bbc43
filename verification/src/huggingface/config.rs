//! Reading a model's `config.json`: which variants are supported, and the geometry they have.

use crate::generation::control::in_vocabulary;
use crate::huggingface::{refuse, HuggingFaceLoadError};
use crate::llama::LlamaConfig;
use crate::logits::order_64;
use crate::names::joined;
use crate::text::{decimal, push_number, push_signed, signed_decimal, text, with_numbers};
use vstd::prelude::*;

verus! {

/// What `{:?}` of std's formatting writes for a string: the string in quotes, with what is not
/// printable escaped.
pub uninterp spec fn debug_text(text: Seq<char>) -> Seq<char>;

/// Calls `format!` of std with `{:?}` on a string slice.
#[verifier::external_body]
pub(crate) fn debug(text: &str) -> (quoted: String)
    ensures
        quoted@ == debug_text(text@),
{
    format!("{text:?}")
}

/// The bits of the default RoPE base, ten thousand, in binary32.
pub const DEFAULT_ROPE_THETA: u32 = 0x461C_4000;

/// The fields of `config.json` that matter.
#[derive(Debug, Clone)]
pub struct HuggingFaceLlamaConfig {
    pub model_type: Option<String>,
    pub architectures: Option<Vec<String>>,
    pub vocab_size: usize,
    pub hidden_size: usize,
    pub intermediate_size: usize,
    pub num_hidden_layers: usize,
    pub num_attention_heads: usize,
    pub num_key_value_heads: Option<usize>,
    pub max_position_embeddings: usize,
    /// The bits of a binary64 number.
    pub rms_norm_eps: u64,
    /// The bits of a binary32 number.
    pub rope_theta: Option<u32>,
    /// The field is there and not null.
    pub rope_scaling: bool,
    /// The field is there and not null.
    pub rope_parameters: bool,
    pub hidden_act: Option<String>,
    pub attention_bias: Option<bool>,
    pub mlp_bias: Option<bool>,
    /// The bits of a binary64 number.
    pub attention_dropout: Option<u64>,
    pub tie_word_embeddings: Option<bool>,
    pub head_dim: Option<usize>,
    pub eos_token_id: Option<HuggingFaceTokenIds>,
    pub use_sliding_window: Option<bool>,
    pub use_mrope: Option<bool>,
}

#[derive(Debug, Clone)]
pub enum HuggingFaceTokenIds {
    One(i64),
    Many(Vec<i64>),
}

/// The value of an optional string.
pub open spec fn text_of(field: Option<String>) -> Option<Seq<char>> {
    match field {
        Some(value) => Some(value@),
        None => None,
    }
}

/// What `{:?}` writes for an optional string.
pub open spec fn option_text(field: Option<String>) -> Seq<char> {
    match field {
        Some(value) => "Some("@ + debug_text(value@) + ")"@,
        None => "None"@,
    }
}

/// What `{:?}` writes for each string of a list.
pub open spec fn debug_texts(list: Seq<String>) -> Seq<Seq<char>> {
    Seq::new(list.len(), |i: int| debug_text(list[i]@))
}

/// What `{:?}` writes for an optional list of strings.
pub open spec fn option_list_text(field: Option<Vec<String>>) -> Seq<char> {
    match field {
        Some(list) => "Some(["@ + joined(debug_texts(list@), ", "@) + "])"@,
        None => "None"@,
    }
}

/// A list has a string.
pub open spec fn has_text(list: Seq<String>, wanted: Seq<char>) -> bool {
    exists|i: int| 0 <= i < list.len() && (#[trigger] list[i])@ == wanted
}

/// A number given as the bits of a binary64 number is not zero.
pub open spec fn nonzero(field: Option<u64>) -> bool {
    field matches Some(bits) && order_64(bits) != 0
}

fn is_text(field: &Option<String>, wanted: &str) -> (same: bool)
    ensures
        same == (text_of(*field) == Some(wanted@)),
{
    match field {
        Some(value) => {
            let wanted = text(wanted);
            *value == wanted
        },
        None => false,
    }
}

fn lists_text(list: &Vec<String>, wanted: &str) -> (found: bool)
    ensures
        found == has_text(list@, wanted@),
{
    let sought = text(wanted);
    let mut i: usize = 0;
    while i < list.len()
        invariant
            i <= list@.len(),
            sought@ == wanted@,
            forall|j: int| 0 <= j < i ==> (#[trigger] list@[j])@ != wanted@,
        decreases list@.len() - i,
    {
        if list[i] == sought {
            assert(list@[i as int]@ == wanted@);
            return true;
        }
        i += 1;
    }
    false
}

fn is_nonzero(field: &Option<u64>) -> (found: bool)
    ensures
        found == nonzero(*field),
{
    match field {
        Some(bits) => *bits != 0 && *bits != 0x8000_0000_0000_0000,
        None => false,
    }
}

fn push_option(message: &mut String, field: &Option<String>)
    ensures
        final(message)@ == old(message)@ + option_text(*field),
{
    let ghost before = message@;
    match field {
        Some(value) => {
            message.append("Some(");
            message.append(debug(value.as_str()).as_str());
            message.append(")");
        },
        None => {
            message.append("None");
        },
    }
    assert(message@ =~= before + option_text(*field));
}

fn push_option_list(message: &mut String, field: &Option<Vec<String>>)
    ensures
        final(message)@ == old(message)@ + option_list_text(*field),
{
    let ghost before = message@;
    match field {
        Some(list) => {
            message.append("Some([");
            let ghost start = message@;
            let mut i: usize = 0;
            let ghost all = debug_texts(list@);
            assert(all.take(0) =~= Seq::<Seq<char>>::empty());
            assert(message@ =~= start + joined(all.take(0), ", "@));
            while i < list.len()
                invariant
                    i <= list@.len(),
                    all == debug_texts(list@),
                    message@ == start + joined(all.take(i as int), ", "@),
                decreases list@.len() - i,
            {
                let ghost shorter = all.take(i as int);
                let ghost longer = all.take(i + 1);
                assert(longer.drop_last() =~= shorter);
                assert(longer.last() == debug_text(list@[i as int]@));
                if i > 0 {
                    message.append(", ");
                }
                message.append(debug(list[i].as_str()).as_str());
                i += 1;
                assert(message@ =~= start + joined(longer, ", "@));
            }
            assert(all.take(i as int) =~= all);
            message.append("])");
        },
        None => {
            message.append("None");
        },
    }
    assert(message@ =~= before + option_list_text(*field));
}

/// The geometry that a configuration stands for.
pub open spec fn geometry(source: HuggingFaceLlamaConfig) -> LlamaConfig {
    LlamaConfig {
        vocab_size: source.vocab_size,
        d_model: source.hidden_size,
        d_ff: source.intermediate_size,
        num_hidden_layers: source.num_hidden_layers,
        num_query_heads: source.num_attention_heads,
        num_kv_heads: source.num_key_value_heads.unwrap_or(source.num_attention_heads),
        max_sequence_length: source.max_position_embeddings,
        rms_norm_epsilon: source.rms_norm_eps,
        rope_theta: source.rope_theta.unwrap_or(DEFAULT_ROPE_THETA),
    }
}

/// The identifiers of a field.
pub open spec fn id_values(source: Option<HuggingFaceTokenIds>) -> Seq<i64> {
    match source {
        None => Seq::empty(),
        Some(HuggingFaceTokenIds::One(value)) => seq![value],
        Some(HuggingFaceTokenIds::Many(values)) => values@,
    }
}

/// What is wrong with one identifier.
pub open spec fn id_fault(value: i64, vocabulary: usize) -> Option<Seq<char>> {
    if !(i32::MIN <= value <= i32::MAX) {
        Some("eos_token_id "@ + signed_decimal(value as int) + " does not fit an i32 token id"@)
    } else if !in_vocabulary(value as i32, vocabulary) {
        Some(
            "eos_token_id "@ + signed_decimal(value as int) + " is outside vocabulary [0, "@
                + decimal(vocabulary as nat) + ")"@,
        )
    } else {
        None
    }
}

/// What is wrong with identifiers: the fault of the first that has one.
pub open spec fn ids_fault(values: Seq<i64>, vocabulary: usize) -> Option<Seq<char>>
    decreases values.len(),
{
    if values.len() == 0 {
        None
    } else if ids_fault(values.drop_last(), vocabulary) is Some {
        ids_fault(values.drop_last(), vocabulary)
    } else {
        id_fault(values.last(), vocabulary)
    }
}

/// `ids` are the identifiers in ascending order, each once.
pub open spec fn ids_listed(values: Seq<i64>, ids: Seq<i32>) -> bool {
    &&& forall|i: int, j: int| 0 <= i < j < ids.len() ==> ids[i] < ids[j]
    &&& forall|id: i32| #[trigger] ids.contains(id) <==> values.contains(id as i64)
}

/// What is wrong with the geometry and the identifiers of a configuration.
pub open spec fn geometry_fault(source: HuggingFaceLlamaConfig) -> Option<Seq<char>> {
    let config = geometry(source);
    match config.fault() {
        Some(error) => Some(error.message()),
        None => if source.head_dim is Some && source.head_dim->0 != config.heads_width() {
            Some(
                "head_dim "@ + decimal(source.head_dim->0 as nat)
                    + " does not equal hidden_size/num_attention_heads ("@ + decimal(
                    config.heads_width() as nat,
                ) + ")"@,
            )
        } else {
            ids_fault(id_values(source.eos_token_id), config.vocab_size)
        },
    }
}

/// Why a configuration is not that of a supported Llama model: the first fault that it has.
pub open spec fn llama_fault(source: HuggingFaceLlamaConfig) -> Option<Seq<char>> {
    if source.model_type is Some && text_of(source.model_type) != Some("llama"@) {
        Some("model_type "@ + option_text(source.model_type) + " is not Llama"@)
    } else if source.architectures is Some && !has_text(
        source.architectures->0@,
        "LlamaForCausalLM"@,
    ) {
        Some(
            "architectures "@ + option_list_text(source.architectures)
                + " do not contain LlamaForCausalLM"@,
        )
    } else if source.hidden_act is Some && text_of(source.hidden_act) != Some("silu"@) {
        Some("Ruda Llama requires hidden_act=silu, got "@ + option_text(source.hidden_act))
    } else if source.attention_bias == Some(true) || source.mlp_bias == Some(true) {
        Some("Ruda Llama does not implement attention or MLP projection biases"@)
    } else if nonzero(source.attention_dropout) {
        Some("Ruda Llama currently requires attention_dropout=0"@)
    } else if source.rope_scaling {
        Some("Ruda Llama does not yet implement Hugging Face rope_scaling variants"@)
    } else {
        geometry_fault(source)
    }
}

/// Why a configuration is not that of a supported Qwen2 model: the first fault that it has.
pub open spec fn qwen2_fault(source: HuggingFaceLlamaConfig) -> Option<Seq<char>> {
    if text_of(source.model_type) != Some("qwen2"@) {
        Some("model_type "@ + option_text(source.model_type) + " is not Qwen2"@)
    } else if source.architectures is None || !has_text(
        source.architectures->0@,
        "Qwen2ForCausalLM"@,
    ) {
        Some(
            "architectures "@ + option_list_text(source.architectures)
                + " do not contain Qwen2ForCausalLM"@,
        )
    } else if source.hidden_act is Some && text_of(source.hidden_act) != Some("silu"@) {
        Some("Ruda Qwen2 requires hidden_act=silu, got "@ + option_text(source.hidden_act))
    } else if source.mlp_bias == Some(true) {
        Some("Ruda Qwen2 does not implement MLP projection biases"@)
    } else if source.attention_bias == Some(false) {
        Some(
            "Ruda Qwen2 requires attention_bias=true for Q/K/V projections, got Some(false)"@,
        )
    } else if nonzero(source.attention_dropout) {
        Some("Ruda Qwen2 currently requires attention_dropout=0"@)
    } else if source.use_sliding_window == Some(true) {
        Some("Ruda Qwen2 does not yet implement sliding-window attention"@)
    } else if source.use_mrope == Some(true) {
        Some("Ruda Qwen2 does not implement multimodal RoPE"@)
    } else if source.rope_scaling || source.rope_parameters {
        Some("Ruda Qwen2 currently requires default, unscaled RoPE"@)
    } else {
        geometry_fault(source)
    }
}

/// What reading a configuration comes to: refused with its first fault, or its geometry, whether
/// it ties its embeddings, and its end tokens.
pub open spec fn converted(
    source: HuggingFaceLlamaConfig,
    fault: Option<Seq<char>>,
    result: Result<(LlamaConfig, bool, Vec<i32>), HuggingFaceLoadError>,
) -> bool {
    match (result, fault) {
        (Err(error), Some(message)) => error.0@ == message,
        (Ok((config, tied, eos)), None) => {
            &&& config == geometry(source)
            &&& config.fault() is None
            &&& tied == (source.tie_word_embeddings == Some(true))
            &&& ids_listed(id_values(source.eos_token_id), eos@)
            &&& forall|i: int|
                0 <= i < eos@.len() ==> in_vocabulary(#[trigger] eos@[i], config.vocab_size)
        },
        _ => false,
    }
}

fn flag(field: Option<bool>) -> (set: bool)
    ensures
        set == (field == Some(true)),
{
    match field {
        Some(value) => value,
        None => false,
    }
}

/// The base of the rotary frequencies of a configuration, as binary32 bits.
pub fn rope_theta_of(source: &HuggingFaceLlamaConfig) -> (theta: u32)
    ensures
        theta == source.rope_theta.unwrap_or(DEFAULT_ROPE_THETA),
{
    match source.rope_theta {
        Some(theta) => theta,
        None => DEFAULT_ROPE_THETA,
    }
}

/// The geometry, and what else is read once a variant is known to be supported.
fn convert_geometry(source: HuggingFaceLlamaConfig) -> (result: Result<
    (LlamaConfig, bool, Vec<i32>),
    HuggingFaceLoadError,
>)
    ensures
        converted(source, geometry_fault(source), result),
{
    let num_kv_heads: usize = match source.num_key_value_heads {
        Some(heads) => heads,
        None => source.num_attention_heads,
    };
    let rope_theta: u32 = rope_theta_of(&source);
    let config = LlamaConfig {
        vocab_size: source.vocab_size,
        d_model: source.hidden_size,
        d_ff: source.intermediate_size,
        num_hidden_layers: source.num_hidden_layers,
        num_query_heads: source.num_attention_heads,
        num_kv_heads,
        max_sequence_length: source.max_position_embeddings,
        rms_norm_epsilon: source.rms_norm_eps,
        rope_theta,
    };
    match config.validate() {
        Ok(_) => {},
        Err(error) => {
            return Err(HuggingFaceLoadError(error.to_string()));
        },
    }
    if let Some(head_dim) = source.head_dim {
        let width: usize = config.head_dimension();
        if head_dim != width {
            return Err(
                HuggingFaceLoadError(
                    with_numbers(
                        "head_dim ",
                        head_dim as u64,
                        " does not equal hidden_size/num_attention_heads (",
                        width as u64,
                        ")",
                    ),
                ),
            );
        }
    }
    let tied = flag(source.tie_word_embeddings);
    match convert_token_ids(source.eos_token_id, config.vocab_size) {
        Ok(eos_token_ids) => Ok((config, tied, eos_token_ids)),
        Err(error) => Err(error),
    }
}

/// Read the configuration of a Llama model.
pub fn convert_config(source: HuggingFaceLlamaConfig) -> (result: Result<
    (LlamaConfig, bool, Vec<i32>),
    HuggingFaceLoadError,
>)
    ensures
        converted(source, llama_fault(source), result),
{
    if source.model_type.is_some() && !is_text(&source.model_type, "llama") {
        let mut message = text("model_type ");
        push_option(&mut message, &source.model_type);
        message.append(" is not Llama");
        return Err(HuggingFaceLoadError(message));
    }
    if let Some(architectures) = &source.architectures {
        if !lists_text(architectures, "LlamaForCausalLM") {
            let mut message = text("architectures ");
            push_option_list(&mut message, &source.architectures);
            message.append(" do not contain LlamaForCausalLM");
            return Err(HuggingFaceLoadError(message));
        }
    }
    if source.hidden_act.is_some() && !is_text(&source.hidden_act, "silu") {
        let mut message = text("Ruda Llama requires hidden_act=silu, got ");
        push_option(&mut message, &source.hidden_act);
        return Err(HuggingFaceLoadError(message));
    }
    if flag(source.attention_bias) || flag(source.mlp_bias) {
        return Err(
            refuse("Ruda Llama does not implement attention or MLP projection biases"),
        );
    }
    if is_nonzero(&source.attention_dropout) {
        return Err(refuse("Ruda Llama currently requires attention_dropout=0"));
    }
    if source.rope_scaling {
        return Err(
            refuse("Ruda Llama does not yet implement Hugging Face rope_scaling variants"),
        );
    }
    convert_geometry(source)
}

/// Read the configuration of a Qwen2 model.
pub fn convert_qwen2_config(source: HuggingFaceLlamaConfig) -> (result: Result<
    (LlamaConfig, bool, Vec<i32>),
    HuggingFaceLoadError,
>)
    ensures
        converted(source, qwen2_fault(source), result),
{
    if !is_text(&source.model_type, "qwen2") {
        let mut message = text("model_type ");
        push_option(&mut message, &source.model_type);
        message.append(" is not Qwen2");
        return Err(HuggingFaceLoadError(message));
    }
    let known = match &source.architectures {
        Some(architectures) => lists_text(architectures, "Qwen2ForCausalLM"),
        None => false,
    };
    if !known {
        let mut message = text("architectures ");
        push_option_list(&mut message, &source.architectures);
        message.append(" do not contain Qwen2ForCausalLM");
        return Err(HuggingFaceLoadError(message));
    }
    if source.hidden_act.is_some() && !is_text(&source.hidden_act, "silu") {
        let mut message = text("Ruda Qwen2 requires hidden_act=silu, got ");
        push_option(&mut message, &source.hidden_act);
        return Err(HuggingFaceLoadError(message));
    }
    if flag(source.mlp_bias) {
        return Err(refuse("Ruda Qwen2 does not implement MLP projection biases"));
    }
    // Qwen2Config defaults `attention_bias` to true, and official Qwen2.5
    // checkpoints commonly omit the field while still containing all three
    // bias tensors. Only an explicit false is incompatible.
    if let Some(false) = source.attention_bias {
        return Err(
            refuse(
                "Ruda Qwen2 requires attention_bias=true for Q/K/V projections, got Some(false)",
            ),
        );
    }
    if is_nonzero(&source.attention_dropout) {
        return Err(refuse("Ruda Qwen2 currently requires attention_dropout=0"));
    }
    if flag(source.use_sliding_window) {
        return Err(refuse("Ruda Qwen2 does not yet implement sliding-window attention"));
    }
    if flag(source.use_mrope) {
        return Err(refuse("Ruda Qwen2 does not implement multimodal RoPE"));
    }
    if source.rope_scaling || source.rope_parameters {
        return Err(refuse("Ruda Qwen2 currently requires default, unscaled RoPE"));
    }
    convert_geometry(source)
}

/// Add a token to an ascending list, unless it is there.
fn insert_id(ids: &mut Vec<i32>, id: i32)
    requires
        forall|i: int, j: int| 0 <= i < j < old(ids)@.len() ==> old(ids)@[i] < old(ids)@[j],
    ensures
        forall|i: int, j: int| 0 <= i < j < final(ids)@.len() ==> final(ids)@[i] < final(ids)@[j],
        forall|x: i32| #[trigger]
            final(ids)@.contains(x) <==> old(ids)@.contains(x) || x == id,
{
    let ghost before = ids@;
    let mut index: usize = 0;
    while index < ids.len() && ids[index] < id
        invariant
            ids@ == before,
            index <= before.len(),
            forall|i: int| 0 <= i < index ==> #[trigger] before[i] < id,
        decreases before.len() - index,
    {
        index += 1;
    }
    if index < ids.len() && ids[index] == id {
        assert(before[index as int] == id);
        return ;
    }
    ids.insert(index, id);
    proof {
        let after = ids@;
        assert(after =~= before.insert(index as int, id));
        assert forall|i: int, j: int| 0 <= i < j < after.len() implies after[i] < after[j] by {
            let a = if i < index { i } else { i - 1 };
            let b = if j < index { j } else { j - 1 };
            if i != index {
                assert(after[i] == before[a]);
            }
            if j != index {
                assert(after[j] == before[b]);
            }
            if i == index {
                assert(before[index as int] <= before[b]);
            }
        }
        assert forall|x: i32| #[trigger] after.contains(x) <==> before.contains(x) || x == id by {
            if after.contains(x) {
                let i = choose|i: int| 0 <= i < after.len() && after[i] == x;
                if i < index {
                    assert(before[i] == x);
                } else if i > index {
                    assert(before[i - 1] == x);
                }
            }
            if before.contains(x) {
                let i = choose|i: int| 0 <= i < before.len() && before[i] == x;
                if i < index {
                    assert(after[i] == x);
                } else {
                    assert(after[i + 1] == x);
                }
            }
            assert(after[index as int] == id);
        }
    }
}

/// Read end tokens: in ascending order, each once, all of them in the vocabulary.
pub fn convert_token_ids(source: Option<HuggingFaceTokenIds>, vocabulary: usize) -> (result: Result<
    Vec<i32>,
    HuggingFaceLoadError,
>)
    ensures
        match (result, ids_fault(id_values(source), vocabulary)) {
            (Err(error), Some(message)) => error.0@ == message,
            (Ok(ids), None) => ids_listed(id_values(source), ids@) && forall|i: int|
                0 <= i < ids@.len() ==> in_vocabulary(#[trigger] ids@[i], vocabulary),
            _ => false,
        },
{
    let ghost all = id_values(source);
    let values: Vec<i64> = match source {
        None => Vec::new(),
        Some(HuggingFaceTokenIds::One(value)) => vec![value],
        Some(HuggingFaceTokenIds::Many(values)) => values,
    };
    assert(values@ =~= all);
    let mut ids: Vec<i32> = Vec::new();
    let mut i: usize = 0;
    assert(all.take(0) =~= Seq::<i64>::empty());
    while i < values.len()
        invariant
            values@ == all,
            all == id_values(source),
            i <= all.len(),
            ids_fault(all.take(i as int), vocabulary) is None,
            ids_listed(all.take(i as int), ids@),
            forall|j: int| 0 <= j < ids@.len() ==> in_vocabulary(#[trigger] ids@[j], vocabulary),
        decreases all.len() - i,
    {
        let value: i64 = values[i];
        proof {
            assert(all.take(i + 1).drop_last() =~= all.take(i as int));
            assert(all.take(i + 1).last() == value);
        }
        if value < i32::MIN as i64 || value > i32::MAX as i64 {
            let mut message = text("eos_token_id ");
            push_signed(&mut message, value);
            message.append(" does not fit an i32 token id");
            proof {
                lemma_ids_fault_prefix(all, vocabulary, i + 1);
            }
            return Err(HuggingFaceLoadError(message));
        }
        let token: i32 = value as i32;
        if token < 0 || token as usize >= vocabulary {
            let mut message = text("eos_token_id ");
            push_signed(&mut message, token as i64);
            message.append(" is outside vocabulary [0, ");
            push_number(&mut message, vocabulary as u64);
            message.append(")");
            proof {
                lemma_ids_fault_prefix(all, vocabulary, i + 1);
            }
            return Err(HuggingFaceLoadError(message));
        }
        let ghost before = ids@;
        insert_id(&mut ids, token);
        proof {
            let shorter = all.take(i as int);
            let longer = all.take(i + 1);
            assert(longer =~= shorter.push(value));
            assert forall|id: i32| #[trigger] ids@.contains(id) <==> longer.contains(id as i64) by {
                assert(ids@.contains(id) <==> before.contains(id) || id == token);
                assert(before.contains(id) <==> shorter.contains(id as i64));
                if shorter.contains(id as i64) {
                    let k = choose|k: int| 0 <= k < shorter.len() && shorter[k] == id as i64;
                    assert(longer[k] == id as i64);
                }
                if longer.contains(id as i64) {
                    let k = choose|k: int| 0 <= k < longer.len() && longer[k] == id as i64;
                    if k < shorter.len() {
                        assert(shorter[k] == id as i64);
                    }
                }
                assert(longer[i as int] == value);
            }
            assert forall|j: int| 0 <= j < ids@.len() implies in_vocabulary(
                #[trigger] ids@[j],
                vocabulary,
            ) by {
                assert(ids@.contains(ids@[j]));
                if ids@[j] != token {
                    assert(before.contains(ids@[j]));
                    let k = choose|k: int| 0 <= k < before.len() && before[k] == ids@[j];
                    assert(in_vocabulary(before[k], vocabulary));
                }
            }
        }
        i += 1;
    }
    assert(all.take(i as int) =~= all);
    Ok(ids)
}

proof fn lemma_ids_fault_prefix(values: Seq<i64>, vocabulary: usize, n: int)
    requires
        0 <= n <= values.len(),
        ids_fault(values.take(n), vocabulary) is Some,
    ensures
        ids_fault(values, vocabulary) == ids_fault(values.take(n), vocabulary),
    decreases values.len() - n,
{
    if n == values.len() {
        assert(values.take(n) =~= values);
    } else {
        assert(values.take(n + 1).drop_last() =~= values.take(n));
        lemma_ids_fault_prefix(values, vocabulary, n + 1);
    }
}

/// The end tokens of a generation configuration, where there is one that names any, and those of
/// the model's configuration otherwise.
pub open spec fn generation_eos(
    generation: Option<Option<HuggingFaceTokenIds>>,
    vocabulary: usize,
    config_eos_token_ids: Seq<i32>,
    result: Result<Vec<i32>, HuggingFaceLoadError>,
) -> bool {
    match generation {
        Some(Some(ids)) => match (result, ids_fault(id_values(Some(ids)), vocabulary)) {
            (Err(error), Some(message)) => error.0@ == message,
            (Ok(eos), None) => ids_listed(id_values(Some(ids)), eos@),
            _ => false,
        },
        _ => result matches Ok(eos) && eos@ == config_eos_token_ids,
    }
}

/// The end tokens of a model: those of `generation_config.json` where that file has any field for
/// them, and those of `config.json` otherwise.
///
/// `generation` is none where there is no such file, and holds its field otherwise.
pub fn load_generation_eos_token_ids(
    generation: Option<Option<HuggingFaceTokenIds>>,
    vocabulary: usize,
    config_eos_token_ids: Vec<i32>,
) -> (result: Result<Vec<i32>, HuggingFaceLoadError>)
    ensures
        generation_eos(generation, vocabulary, config_eos_token_ids@, result),
{
    match generation {
        Some(Some(ids)) => convert_token_ids(Some(ids), vocabulary),
        _ => Ok(config_eos_token_ids),
    }
}

} // verus!
