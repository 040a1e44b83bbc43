//! What a quantized model is loaded from, parameter by parameter.

use crate::huggingface::awq::{same_but_case, AwqCheckpoint, AwqQuantizationConfig};
use crate::huggingface::awq_model::{
    layer_parts, layers_parts, model_parts_spec, model_planned, packed_part, part_fault,
    parts_fault, AwqGroups, AwqModelPlan, LoadedPart, PartModel,
};
use crate::huggingface::tensors::{DType, TensorInfo};
use crate::llama::{law_heads_cover_the_model, LlamaConfig};
use crate::text::decimal;
use vstd::prelude::*;

verus! {

/// A checkpoint has a tensor of an element type and a shape.
pub open spec fn stored(
    tensors: Map<Seq<char>, TensorInfo>,
    name: Seq<char>,
    dtype: DType,
    shape: Seq<usize>,
) -> bool {
    tensors.contains_key(name) && tensors[name].dtype == dtype && tensors[name].shape@ == shape
}

/// The shape of a matrix.
pub open spec fn matrix(rows: int, columns: int) -> Seq<usize> {
    seq![rows as usize, columns as usize]
}

/// A bias is loaded where there is one: as many numbers of half precision as there are outputs.
pub open spec fn bias_loaded(
    tensors: Map<Seq<char>, TensorInfo>,
    path: Seq<char>,
    output: usize,
    has_bias: bool,
    bias: Option<String>,
) -> bool {
    match bias {
        Some(name) => has_bias && name@ == path + "."@ + "bias"@ && stored(
            tensors,
            name@,
            DType::F16,
            seq![output],
        ),
        None => !has_bias,
    }
}

/// A projection is loaded from what the checkpoint has of it: packed weights, eight to a word, with
/// a zero and a scale for each group of inputs and each output; or weights of half precision, a row
/// for each output.
pub open spec fn projection_loaded(
    quantization: AwqQuantizationConfig,
    tensors: Map<Seq<char>, TensorInfo>,
    path: Seq<char>,
    input: int,
    output: int,
    has_bias: bool,
    loaded: LoadedPart,
) -> bool {
    let width = output as usize;
    match loaded {
        LoadedPart::Tensor { .. } => false,
        LoadedPart::Packed(linear) => {
            &&& linear.qweight@ == path + "."@ + "qweight"@
            &&& linear.qzeros@ == path + "."@ + "qzeros"@
            &&& linear.scales@ == path + "."@ + "scales"@
            &&& stored(
                tensors,
                linear.qweight@,
                DType::I32,
                matrix(input, output / 8),
            )
            &&& exists|groups: usize| #[trigger]
                stored(
                    tensors,
                    linear.qzeros@,
                    DType::I32,
                    matrix(groups as int, output / 8),
                ) && stored(tensors, linear.scales@, DType::F16, matrix(groups as int, output))
            &&& bias_loaded(tensors, path, width, has_bias, linear.bias)
            &&& !has_bias ==> !tensors.contains_key(path + "."@ + "bias"@)
            &&& !tensors.contains_key(path + "."@ + "weight"@)
            &&& linear.group_size == if quantization.group_size == -1 {
                input
            } else {
                quantization.group_size as int
            }
        },
        LoadedPart::Dense { weight, bias } => {
            &&& weight@ == path + "."@ + "weight"@
            &&& stored(tensors, weight@, DType::F16, matrix(output, input))
            &&& !tensors.contains_key(path + "."@ + "qweight"@)
            &&& bias_loaded(tensors, path, width, has_bias, bias)
        },
    }
}

/// A tensor of half precision is loaded.
pub open spec fn tensor_loaded(
    tensors: Map<Seq<char>, TensorInfo>,
    name: Seq<char>,
    shape: Seq<usize>,
    loaded: LoadedPart,
) -> bool {
    loaded matches LoadedPart::Tensor { name: found } && found@ == name && stored(
        tensors,
        name,
        DType::F16,
        shape,
    )
}

/// No part of a list has a fault.
proof fn lemma_no_part_fault(
    quantization: AwqQuantizationConfig,
    tensors: Map<Seq<char>, TensorInfo>,
    groups: AwqGroups,
    config: LlamaConfig,
    parts: Seq<PartModel>,
    i: int,
)
    requires
        parts_fault(quantization, tensors, groups, config, parts) is None,
        0 <= i < parts.len(),
    ensures
        part_fault(quantization, tensors, groups, config, parts[i]) is None,
    decreases parts.len(),
{
    if i < parts.len() - 1 {
        lemma_no_part_fault(quantization, tensors, groups, config, parts.drop_last(), i);
    }
}

/// The parts of a layer stand one behind the other.
proof fn lemma_layer_place(config: LlamaConfig, qwen2: bool, layers: nat, l: int, k: int)
    requires
        0 <= l < layers,
        0 <= k < 9,
    ensures
        layers_parts(config, qwen2, layers).len() == 9 * layers,
        layers_parts(config, qwen2, layers)[9 * l + k] == layer_parts(config, qwen2, l as nat)[k],
    decreases layers,
{
    let fewer = (layers - 1) as nat;
    if fewer > 0 {
        if l < fewer {
            lemma_layer_place(config, qwen2, fewer, l, k);
        } else {
            lemma_layer_place(config, qwen2, fewer, 0, k);
        }
    } else {
        assert(layers_parts(config, qwen2, 0).len() == 0);
    }
}

/// Part `i` of a plan is loaded from tensors that fit it.
proof fn lemma_part_loaded(
    checkpoint: AwqCheckpoint,
    config: LlamaConfig,
    qwen2: bool,
    tied: bool,
    groups: AwqGroups,
    plan: AwqModelPlan,
    i: int,
)
    requires
        model_planned(checkpoint, config, qwen2, tied, groups, plan),
        0 <= i < plan.parts@.len(),
    ensures
        ({
            let tensors = checkpoint.tensors@;
            let part = model_parts_spec(
                config,
                qwen2,
                tied,
                tensors.contains_key("lm_head.weight"@),
            )[i];
            match part {
                PartModel::Tensor { name, shape } => tensor_loaded(
                    tensors,
                    name,
                    shape,
                    plan.parts@[i],
                ),
                PartModel::Projection { prefix, input, output, bias } => projection_loaded(
                    checkpoint.quantization,
                    tensors,
                    prefix,
                    input as int,
                    output as int,
                    bias,
                    plan.parts@[i],
                ),
            }
        }),
{
    let tensors = checkpoint.tensors@;
    let parts = model_parts_spec(config, qwen2, tied, tensors.contains_key("lm_head.weight"@));
    lemma_no_part_fault(checkpoint.quantization, tensors, groups, config, parts, i);
    let loaded = plan.parts@[i];
    if let PartModel::Projection { prefix, input, output, bias } = parts[i] {
        if loaded is Packed {
            let count = groups.of(config, input, output)->Ok_0;
            assert(stored(
                tensors,
                prefix + "."@ + "qzeros"@,
                DType::I32,
                matrix(count as int, output as int / 8),
            ));
        }
    }
}

/// A quantized model is loaded from the parameters of its layers, each from the tensors of its own
/// name and of its own shape: the projections of attention, with biases on queries, keys and values
/// for a Qwen2 model and none for a Llama model, those of the feed-forward block, and the two norms.
pub proof fn law_quantized_layers_are_loaded(
    checkpoint: AwqCheckpoint,
    config: LlamaConfig,
    qwen2: bool,
    tied: bool,
    groups: AwqGroups,
    plan: AwqModelPlan,
    l: int,
)
    requires
        model_planned(checkpoint, config, qwen2, tied, groups, plan),
        0 <= l < config.num_hidden_layers,
    ensures
        ({
            let q = checkpoint.quantization;
            let t = checkpoint.tensors@;
            let parts = plan.parts@;
            let at = 1 + 9 * l;
            let path = "model.layers."@ + decimal(l as nat) + "."@;
            let d = config.d_model as int;
            let f = config.d_ff as int;
            let kv = config.num_kv_heads * (d / config.num_query_heads as int);
            &&& projection_loaded(q, t, path + "self_attn.q_proj"@, d, d, qwen2, parts[at])
            &&& projection_loaded(q, t, path + "self_attn.k_proj"@, d, kv, qwen2, parts[at + 1])
            &&& projection_loaded(q, t, path + "self_attn.v_proj"@, d, kv, qwen2, parts[at + 2])
            &&& projection_loaded(q, t, path + "self_attn.o_proj"@, d, d, false, parts[at + 3])
            &&& projection_loaded(q, t, path + "mlp.gate_proj"@, d, f, false, parts[at + 4])
            &&& projection_loaded(q, t, path + "mlp.up_proj"@, d, f, false, parts[at + 5])
            &&& projection_loaded(q, t, path + "mlp.down_proj"@, f, d, false, parts[at + 6])
            &&& tensor_loaded(
                t,
                path + "input_layernorm"@ + "."@ + "weight"@,
                seq![config.d_model],
                parts[at + 7],
            )
            &&& tensor_loaded(
                t,
                path + "post_attention_layernorm"@ + "."@ + "weight"@,
                seq![config.d_model],
                parts[at + 8],
            )
        }),
{
    let n = config.num_hidden_layers as nat;
    let at = 1 + 9 * l;
    law_heads_cover_the_model(config);
    let stored_head = checkpoint.tensors@.contains_key("lm_head.weight"@);
    let parts = model_parts_spec(config, qwen2, tied, stored_head);
    assert forall|k: int| 0 <= k < 9 implies 0 <= at + k < parts.len() && #[trigger] parts[at + k]
        == layer_parts(config, qwen2, l as nat)[k] by {
        lemma_layer_place(config, qwen2, n, l, k);
        assert(parts[at + k] == layers_parts(config, qwen2, n)[9 * l + k]);
    }
    assert(parts[at + 0] == layer_parts(config, qwen2, l as nat)[0]);
    lemma_part_loaded(checkpoint, config, qwen2, tied, groups, plan, at);
    assert(parts[at + 1] == layer_parts(config, qwen2, l as nat)[1]);
    lemma_part_loaded(checkpoint, config, qwen2, tied, groups, plan, at + 1);
    assert(parts[at + 2] == layer_parts(config, qwen2, l as nat)[2]);
    lemma_part_loaded(checkpoint, config, qwen2, tied, groups, plan, at + 2);
    assert(parts[at + 3] == layer_parts(config, qwen2, l as nat)[3]);
    lemma_part_loaded(checkpoint, config, qwen2, tied, groups, plan, at + 3);
    assert(parts[at + 4] == layer_parts(config, qwen2, l as nat)[4]);
    lemma_part_loaded(checkpoint, config, qwen2, tied, groups, plan, at + 4);
    assert(parts[at + 5] == layer_parts(config, qwen2, l as nat)[5]);
    lemma_part_loaded(checkpoint, config, qwen2, tied, groups, plan, at + 5);
    assert(parts[at + 6] == layer_parts(config, qwen2, l as nat)[6]);
    lemma_part_loaded(checkpoint, config, qwen2, tied, groups, plan, at + 6);
    assert(parts[at + 7] == layer_parts(config, qwen2, l as nat)[7]);
    lemma_part_loaded(checkpoint, config, qwen2, tied, groups, plan, at + 7);
    assert(parts[at + 8] == layer_parts(config, qwen2, l as nat)[8]);
    lemma_part_loaded(checkpoint, config, qwen2, tied, groups, plan, at + 8);
}

/// Around its layers a quantized model is loaded from its table of embeddings, its last norm and,
/// unless the embeddings stand for it, a head without a bias; a head that is stored all the same has
/// the shape of the embeddings. Something of the model is packed.
pub proof fn law_quantized_model_is_loaded(
    checkpoint: AwqCheckpoint,
    config: LlamaConfig,
    qwen2: bool,
    tied: bool,
    groups: AwqGroups,
    plan: AwqModelPlan,
)
    requires
        model_planned(checkpoint, config, qwen2, tied, groups, plan),
    ensures
        ({
            let q = checkpoint.quantization;
            let t = checkpoint.tensors@;
            let parts = plan.parts@;
            let end = 1 + 9 * config.num_hidden_layers;
            let table = seq![config.vocab_size, config.d_model];
            let d = config.d_model as int;
            &&& tensor_loaded(t, "model.embed_tokens.weight"@, table, parts[0])
            &&& tensor_loaded(t, "model.norm"@ + "."@ + "weight"@, seq![config.d_model], parts[end])
            &&& if !tied {
                parts.len() == end + 2 && projection_loaded(
                    q,
                    t,
                    "lm_head"@,
                    d,
                    config.vocab_size as int,
                    false,
                    parts[end + 1],
                )
            } else if t.contains_key("lm_head.weight"@) {
                parts.len() == end + 2 && tensor_loaded(
                    t,
                    "lm_head.weight"@,
                    table,
                    parts[end + 1],
                )
            } else {
                parts.len() == end + 1
            }
            &&& exists|i: int| 0 <= i < parts.len() && #[trigger] parts[i] is Packed
        }),
{
    let n = config.num_hidden_layers as nat;
    let tensors = checkpoint.tensors@;
    let stored_head = tensors.contains_key("lm_head.weight"@);
    let parts = model_parts_spec(config, qwen2, tied, stored_head);
    let end = 1 + 9 * config.num_hidden_layers;
    lemma_layer_place(config, qwen2, n, 0, 0);
    lemma_part_loaded(checkpoint, config, qwen2, tied, groups, plan, 0);
    lemma_part_loaded(checkpoint, config, qwen2, tied, groups, plan, end);
    if !tied || stored_head {
        lemma_part_loaded(checkpoint, config, qwen2, tied, groups, plan, end + 1);
    }
    let i = choose|i: int| 0 <= i < parts.len() && packed_part(tensors, #[trigger] parts[i]);
    assert(plan.parts@[i] is Packed);
}

/// A quantization is supported if and only if it is AWQ in its GEMM version, whichever way that is
/// written, with four bits and explicit zeros, in groups of a positive size or in one group.
pub proof fn law_supported_quantizations(quantization: AwqQuantizationConfig)
    ensures
        quantization.fault() is None <==> {
            &&& same_but_case(quantization.quant_method@, "awq"@)
            &&& same_but_case(quantization.version@, "gemm"@)
            &&& quantization.bits == 4
            &&& quantization.zero_point
            &&& quantization.group_size == -1 || quantization.group_size > 0
        },
{
}

} // verus!
