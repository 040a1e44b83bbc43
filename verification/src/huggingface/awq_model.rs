//! Loading an AWQ model: which tensor each part of the model comes from, and that the checkpoint
//! holds those and no others.

use crate::huggingface::awq::{
    linear_fault, linear_names, name_under, under, AwqCheckpoint, AwqLinear, AwqQuantizationConfig,
};
use crate::huggingface::tensors::{equal_shapes, push_shape, shape_text, DType, TensorInfo};
use crate::huggingface::{refuse, HuggingFaceLoadError};
use crate::llama::{law_heads_cover_the_model, LlamaConfig};
use crate::names::{difference, join, joined, lists, texts, NameMap, NameSet};
use crate::text::{decimal, push_number, text};
use vstd::prelude::*;

verus! {

/// A part of a model, as a checkpoint stores it.
#[derive(Debug)]
pub enum Part {
    /// A tensor that is loaded as it stands.
    Tensor { name: String, shape: Vec<usize> },
    /// A projection, packed or dense.
    Projection { prefix: String, input: usize, output: usize, bias: bool },
}

/// A part, over mathematical sequences.
#[verifier::ext_equal]
pub enum PartModel {
    Tensor { name: Seq<char>, shape: Seq<usize> },
    Projection { prefix: Seq<char>, input: usize, output: usize, bias: bool },
}

impl View for Part {
    type V = PartModel;

    open spec fn view(&self) -> PartModel {
        match self {
            Part::Tensor { name, shape } => PartModel::Tensor { name: name@, shape: shape@ },
            Part::Projection { prefix, input, output, bias } => PartModel::Projection {
                prefix: prefix@,
                input: *input,
                output: *output,
                bias: *bias,
            },
        }
    }
}

/// The views of parts.
pub open spec fn part_models(parts: Seq<Part>) -> Seq<PartModel> {
    Seq::new(parts.len(), |i: int| parts[i]@)
}

/// The widths of the key and value projections.
pub open spec fn kv_width(config: LlamaConfig) -> usize {
    (config.num_kv_heads * config.heads_width()) as usize
}

/// The prefix of a decoder layer.
pub open spec fn layer_prefix(layer: nat) -> Seq<char> {
    "model.layers."@ + decimal(layer)
}

/// A projection of a layer.
pub open spec fn layer_projection(
    layer: nat,
    suffix: Seq<char>,
    input: usize,
    output: usize,
    bias: bool,
) -> PartModel {
    PartModel::Projection { prefix: under(layer_prefix(layer), suffix), input, output, bias }
}

/// A norm: as many weights as the model is wide.
pub open spec fn norm_part(prefix: Seq<char>, config: LlamaConfig) -> PartModel {
    PartModel::Tensor { name: under(prefix, "weight"@), shape: seq![config.d_model] }
}

/// The parts of a decoder layer, in the order in which they are loaded.
pub open spec fn layer_parts(config: LlamaConfig, qwen2: bool, layer: nat) -> Seq<PartModel> {
    seq![
        layer_projection(layer, "self_attn.q_proj"@, config.d_model, config.d_model, qwen2),
        layer_projection(layer, "self_attn.k_proj"@, config.d_model, kv_width(config), qwen2),
        layer_projection(layer, "self_attn.v_proj"@, config.d_model, kv_width(config), qwen2),
        layer_projection(layer, "self_attn.o_proj"@, config.d_model, config.d_model, false),
        layer_projection(layer, "mlp.gate_proj"@, config.d_model, config.d_ff, false),
        layer_projection(layer, "mlp.up_proj"@, config.d_model, config.d_ff, false),
        layer_projection(layer, "mlp.down_proj"@, config.d_ff, config.d_model, false),
        norm_part(under(layer_prefix(layer), "input_layernorm"@), config),
        norm_part(under(layer_prefix(layer), "post_attention_layernorm"@), config),
    ]
}

/// The parts of the first `layers` decoder layers.
pub open spec fn layers_parts(config: LlamaConfig, qwen2: bool, layers: nat) -> Seq<PartModel>
    decreases layers,
{
    if layers == 0 {
        Seq::empty()
    } else {
        layers_parts(config, qwen2, (layers - 1) as nat) + layer_parts(
            config,
            qwen2,
            (layers - 1) as nat,
        )
    }
}

/// A table with one row per vocabulary entry.
pub open spec fn vocabulary_part(name: Seq<char>, config: LlamaConfig) -> PartModel {
    PartModel::Tensor { name, shape: seq![config.vocab_size, config.d_model] }
}

/// The parts at the end of a model: the last norm and the output head. A model that ties its
/// embeddings has no head of its own; a stored copy of one is checked all the same.
pub open spec fn final_parts(config: LlamaConfig, tied: bool, stored_head: bool) -> Seq<PartModel> {
    let norm = norm_part("model.norm"@, config);
    if !tied {
        seq![
            norm,
            PartModel::Projection {
                prefix: "lm_head"@,
                input: config.d_model,
                output: config.vocab_size,
                bias: false,
            },
        ]
    } else if stored_head {
        seq![norm, vocabulary_part("lm_head.weight"@, config)]
    } else {
        seq![norm]
    }
}

/// The parts of a model, in the order in which they are loaded.
pub open spec fn model_parts_spec(
    config: LlamaConfig,
    qwen2: bool,
    tied: bool,
    stored_head: bool,
) -> Seq<PartModel> {
    seq![vocabulary_part("model.embed_tokens.weight"@, config)] + layers_parts(
        config,
        qwen2,
        config.num_hidden_layers as nat,
    ) + final_parts(config, tied, stored_head)
}

fn projection_under(
    layer: usize,
    suffix: &str,
    input: usize,
    output: usize,
    bias: bool,
) -> (part: Part)
    ensures
        part@ == layer_projection(layer as nat, suffix@, input, output, bias),
{
    let mut prefix = text("model.layers.");
    push_number(&mut prefix, layer as u64);
    let prefix = name_under(prefix.as_str(), suffix);
    Part::Projection { prefix, input, output, bias }
}

fn norm_under(prefix: &str, config: &LlamaConfig) -> (part: Part)
    ensures
        part@ == norm_part(prefix@, *config),
{
    let shape = vec![config.d_model];
    assert(shape@ =~= seq![config.d_model]);
    Part::Tensor { name: name_under(prefix, "weight"), shape }
}

fn vocabulary_table(name: &str, config: &LlamaConfig) -> (part: Part)
    ensures
        part@ == vocabulary_part(name@, *config),
{
    let shape = vec![config.vocab_size, config.d_model];
    assert(shape@ =~= seq![config.vocab_size, config.d_model]);
    Part::Tensor { name: text(name), shape }
}

fn push_part(parts: &mut Vec<Part>, part: Part)
    ensures
        part_models(final(parts)@) == part_models(old(parts)@).push(part@),
{
    let ghost before = parts@;
    parts.push(part);
    assert(part_models(parts@) =~= part_models(before).push(part@));
}

/// Add the parts of one decoder layer.
fn push_layer_parts(parts: &mut Vec<Part>, config: &LlamaConfig, qwen2: bool, layer: usize, kv: usize)
    requires
        kv == kv_width(*config),
    ensures
        part_models(final(parts)@) == part_models(old(parts)@) + layer_parts(
            *config,
            qwen2,
            layer as nat,
        ),
{
    let ghost before = part_models(parts@);
    let width: usize = config.d_model;
    push_part(parts, projection_under(layer, "self_attn.q_proj", width, width, qwen2));
    push_part(parts, projection_under(layer, "self_attn.k_proj", width, kv, qwen2));
    push_part(parts, projection_under(layer, "self_attn.v_proj", width, kv, qwen2));
    push_part(parts, projection_under(layer, "self_attn.o_proj", width, width, false));
    push_part(parts, projection_under(layer, "mlp.gate_proj", width, config.d_ff, false));
    push_part(parts, projection_under(layer, "mlp.up_proj", width, config.d_ff, false));
    push_part(parts, projection_under(layer, "mlp.down_proj", config.d_ff, width, false));
    let mut prefix = text("model.layers.");
    push_number(&mut prefix, layer as u64);
    let input_norm = name_under(prefix.as_str(), "input_layernorm");
    let output_norm = name_under(prefix.as_str(), "post_attention_layernorm");
    push_part(parts, norm_under(input_norm.as_str(), config));
    push_part(parts, norm_under(output_norm.as_str(), config));
    assert(part_models(parts@) =~= before + layer_parts(*config, qwen2, layer as nat));
}

/// The parts of a model, in the order in which they are loaded.
pub fn model_parts(config: &LlamaConfig, qwen2: bool, tied: bool, stored_head: bool) -> (parts: Vec<
    Part,
>)
    requires
        config.fault() is None,
    ensures
        part_models(parts@) == model_parts_spec(*config, qwen2, tied, stored_head),
{
    proof {
        law_heads_cover_the_model(*config);
    }
    let kv: usize = config.num_kv_heads * config.head_dimension();
    let mut parts: Vec<Part> = Vec::new();
    assert(part_models(parts@) =~= Seq::<PartModel>::empty());
    push_part(&mut parts, vocabulary_table("model.embed_tokens.weight", config));
    let ghost first = seq![vocabulary_part("model.embed_tokens.weight"@, *config)];
    assert(part_models(parts@) =~= first);
    assert(first + layers_parts(*config, qwen2, 0) =~= first);
    let mut layer: usize = 0;
    while layer < config.num_hidden_layers
        invariant
            layer <= config.num_hidden_layers,
            kv == kv_width(*config),
            part_models(parts@) == first + layers_parts(*config, qwen2, layer as nat),
        decreases config.num_hidden_layers - layer,
    {
        let ghost before = part_models(parts@);
        push_layer_parts(&mut parts, config, qwen2, layer, kv);
        layer += 1;
        assert(part_models(parts@) =~= first + layers_parts(*config, qwen2, layer as nat));
    }
    let ghost before = part_models(parts@);
    push_part(&mut parts, norm_under("model.norm", config));
    if !tied {
        push_part(
            &mut parts,
            Part::Projection {
                prefix: text("lm_head"),
                input: config.d_model,
                output: config.vocab_size,
                bias: false,
            },
        );
    } else if stored_head {
        push_part(&mut parts, vocabulary_table("lm_head.weight", config));
    }
    assert(part_models(parts@) =~= before + final_parts(*config, tied, stored_head));
    parts
}

/// How many groups the compute library makes of each kind of packed projection, or why it refuses
/// the layout.
#[derive(Debug)]
pub struct AwqGroups {
    pub model_to_model: Result<usize, String>,
    pub model_to_kv: Result<usize, String>,
    pub model_to_ff: Result<usize, String>,
    pub ff_to_model: Result<usize, String>,
    pub model_to_vocabulary: Result<usize, String>,
}

impl AwqGroups {
    /// The groups of a projection by its widths.
    pub open spec fn of(self, config: LlamaConfig, input: usize, output: usize) -> Result<
        usize,
        String,
    > {
        if input == config.d_ff && output == config.d_model {
            self.ff_to_model
        } else if output == config.d_model {
            self.model_to_model
        } else if output == kv_width(config) {
            self.model_to_kv
        } else if output == config.d_ff {
            self.model_to_ff
        } else {
            self.model_to_vocabulary
        }
    }

    fn pick(&self, config: &LlamaConfig, kv: usize, input: usize, output: usize) -> (groups: &Result<
        usize,
        String,
    >)
        requires
            kv == kv_width(*config),
        ensures
            *groups == self.of(*config, input, output),
    {
        if input == config.d_ff && output == config.d_model {
            &self.ff_to_model
        } else if output == config.d_model {
            &self.model_to_model
        } else if output == kv {
            &self.model_to_kv
        } else if output == config.d_ff {
            &self.model_to_ff
        } else {
            &self.model_to_vocabulary
        }
    }
}

/// A part, and the tensors that it is loaded from.
#[derive(Debug)]
pub enum LoadedPart {
    Tensor { name: String },
    Packed(AwqLinear),
    Dense { weight: String, bias: Option<String> },
}

/// What is wrong with a half-precision tensor of the model.
pub open spec fn half_fault(
    tensors: Map<Seq<char>, TensorInfo>,
    name: Seq<char>,
    shape: Seq<usize>,
) -> Option<Seq<char>> {
    if !tensors.contains_key(name) {
        Some("missing AWQ model tensor: "@ + name)
    } else if tensors[name]@ != (DType::F16, shape) {
        Some(
            name + ": expected F16 "@ + shape_text(shape) + ", found "@
                + tensors[name].dtype.name() + " "@ + shape_text(tensors[name].shape@),
        )
    } else {
        None
    }
}

/// A projection is stored packed.
pub open spec fn packed_part(tensors: Map<Seq<char>, TensorInfo>, part: PartModel) -> bool {
    part matches PartModel::Projection { prefix, .. } && tensors.contains_key(
        under(prefix, "qweight"@),
    )
}

/// What is wrong with a part.
pub open spec fn part_fault(
    quantization: AwqQuantizationConfig,
    tensors: Map<Seq<char>, TensorInfo>,
    groups: AwqGroups,
    config: LlamaConfig,
    part: PartModel,
) -> Option<Seq<char>> {
    match part {
        PartModel::Tensor { name, shape } => half_fault(tensors, name, shape),
        PartModel::Projection { prefix, input, output, bias } => if packed_part(tensors, part) {
            linear_fault(
                quantization,
                tensors,
                prefix,
                input,
                output,
                bias,
                groups.of(config, input, output),
            )
        } else if half_fault(tensors, under(prefix, "weight"@), seq![output, input]) is Some {
            half_fault(tensors, under(prefix, "weight"@), seq![output, input])
        } else if bias {
            half_fault(tensors, under(prefix, "bias"@), seq![output])
        } else {
            None
        },
    }
}

/// The tensors that a part is loaded from.
pub open spec fn part_names(tensors: Map<Seq<char>, TensorInfo>, part: PartModel) -> Set<Seq<char>> {
    match part {
        PartModel::Tensor { name, .. } => set![name],
        PartModel::Projection { prefix, bias, .. } => {
            let weights = if packed_part(tensors, part) {
                set![
                    under(prefix, "qweight"@),
                    under(prefix, "qzeros"@),
                    under(prefix, "scales"@),
                ]
            } else {
                set![under(prefix, "weight"@)]
            };
            if bias {
                weights.insert(under(prefix, "bias"@))
            } else {
                weights
            }
        },
    }
}

/// A part is loaded from these tensors.
pub open spec fn loads(
    quantization: AwqQuantizationConfig,
    tensors: Map<Seq<char>, TensorInfo>,
    part: PartModel,
    loaded: LoadedPart,
) -> bool {
    match part {
        PartModel::Tensor { name: wanted, .. } => loaded matches LoadedPart::Tensor { name }
            && name@ == wanted,
        PartModel::Projection { prefix, input, bias: biased, .. } => if packed_part(tensors, part) {
            loaded matches LoadedPart::Packed(linear) && linear_names(linear, prefix, biased)
                && linear.group_size == quantization.group_of(input)
        } else {
            loaded matches LoadedPart::Dense { weight, bias } && weight@ == under(
                prefix,
                "weight"@,
            ) && match bias {
                Some(bias) => biased && bias@ == under(prefix, "bias"@),
                None => !biased,
            }
        },
    }
}

/// What is wrong with parts: the fault of the first that has one.
pub open spec fn parts_fault(
    quantization: AwqQuantizationConfig,
    tensors: Map<Seq<char>, TensorInfo>,
    groups: AwqGroups,
    config: LlamaConfig,
    parts: Seq<PartModel>,
) -> Option<Seq<char>>
    decreases parts.len(),
{
    if parts.len() == 0 {
        None
    } else {
        match parts_fault(quantization, tensors, groups, config, parts.drop_last()) {
            Some(message) => Some(message),
            None => part_fault(quantization, tensors, groups, config, parts.last()),
        }
    }
}

/// The tensors that parts are loaded from.
pub open spec fn parts_names(
    tensors: Map<Seq<char>, TensorInfo>,
    parts: Seq<PartModel>,
) -> Set<Seq<char>>
    decreases parts.len(),
{
    if parts.len() == 0 {
        Set::empty()
    } else {
        parts_names(tensors, parts.drop_last()).union(part_names(tensors, parts.last()))
    }
}

/// Some part is stored packed.
pub open spec fn any_packed(tensors: Map<Seq<char>, TensorInfo>, parts: Seq<PartModel>) -> bool {
    exists|i: int| 0 <= i < parts.len() && packed_part(tensors, #[trigger] parts[i])
}

/// How a model is loaded.
#[derive(Debug)]
pub struct AwqModelPlan {
    /// What each part is loaded from, in loading order.
    pub parts: Vec<LoadedPart>,
    /// The number of tensors that are loaded.
    pub consumed: usize,
}

/// The checkpoint while parts are checked off.
struct Weights<'a> {
    checkpoint: &'a AwqCheckpoint,
    consumed: NameSet,
    packed_projections: usize,
}

impl<'a> Weights<'a> {
    /// Check a half-precision tensor, and take note of it.
    fn validate(&mut self, name: &str, shape: &[usize]) -> (result: Result<(), HuggingFaceLoadError>)
        requires
            old(self).checkpoint.wf(),
            old(self).consumed.wf(),
        ensures
            final(self).checkpoint == old(self).checkpoint,
            final(self).packed_projections == old(self).packed_projections,
            final(self).consumed.wf(),
            match (result, half_fault(old(self).checkpoint.tensors@, name@, shape@)) {
                (Ok(_), None) => final(self).consumed@.dom() == old(self).consumed@.dom().insert(
                    name@,
                ),
                (Err(error), Some(message)) => error.0@ == message,
                _ => false,
            },
    {
        match self.checkpoint.tensor_info(name) {
            None => {
                let mut message = text("missing AWQ model tensor: ");
                message.append(name);
                return Err(HuggingFaceLoadError(message));
            },
            Some(info) => {
                if info.dtype != DType::F16 || !equal_shapes(&info.shape, shape) {
                    let mut message = text(name);
                    message.append(": expected F16 ");
                    push_shape(&mut message, shape);
                    message.append(", found ");
                    message.append(info.dtype.as_str());
                    message.append(" ");
                    push_shape(&mut message, &info.shape);
                    return Err(HuggingFaceLoadError(message));
                }
            },
        }
        self.note(text(name));
        Ok(())
    }

    /// Take note of a tensor.
    fn note(&mut self, name: String)
        requires
            old(self).consumed.wf(),
        ensures
            final(self).checkpoint == old(self).checkpoint,
            final(self).packed_projections == old(self).packed_projections,
            final(self).consumed.wf(),
            final(self).consumed@.dom() == old(self).consumed@.dom().insert(name@),
    {
        let _ = self.consumed.insert(name, ());
        assert(self.consumed@.dom() =~= old(self).consumed@.dom().insert(name@));
    }

    /// Check the tensors of a projection, packed or dense.
    fn projection(
        &mut self,
        prefix: &str,
        input: usize,
        output: usize,
        bias: bool,
        groups: &Result<usize, String>,
        Ghost(all): Ghost<AwqGroups>,
        Ghost(config): Ghost<LlamaConfig>,
    ) -> (result: Result<LoadedPart, HuggingFaceLoadError>)
        requires
            old(self).checkpoint.wf(),
            old(self).consumed.wf(),
            *groups == all.of(config, input, output),
            old(self).packed_projections < usize::MAX,
        ensures
            final(self).checkpoint == old(self).checkpoint,
            final(self).consumed.wf(),
            ({
                let tensors = old(self).checkpoint.tensors@;
                let quantization = old(self).checkpoint.quantization;
                let part = PartModel::Projection { prefix: prefix@, input, output, bias };
                match (result, part_fault(quantization, tensors, all, config, part)) {
                    (Ok(loaded), None) => {
                        &&& loads(quantization, tensors, part, loaded)
                        &&& final(self).consumed@.dom() == old(self).consumed@.dom().union(
                            part_names(tensors, part),
                        )
                        &&& final(self).packed_projections == old(self).packed_projections
                            + if packed_part(tensors, part) {
                            1int
                        } else {
                            0int
                        }
                    },
                    (Err(error), Some(message)) => error.0@ == message,
                    _ => false,
                }
            }),
    {
        let ghost before = self.consumed@.dom();
        let ghost tensors = self.checkpoint.tensors@;
        let ghost part = PartModel::Projection { prefix: prefix@, input, output, bias };
        let qweight = name_under(prefix, "qweight");
        if self.checkpoint.tensor_info(qweight.as_str()).is_some() {
            let linear = match self.checkpoint.load_linear(prefix, input, output, bias, groups) {
                Ok(linear) => linear,
                Err(error) => {
                    return Err(error);
                },
            };
            self.note(name_under(prefix, "qweight"));
            self.note(name_under(prefix, "qzeros"));
            self.note(name_under(prefix, "scales"));
            if bias {
                self.note(name_under(prefix, "bias"));
            }
            self.packed_projections += 1;
            assert(self.consumed@.dom() =~= before.union(part_names(tensors, part)));
            Ok(LoadedPart::Packed(linear))
        } else {
            let weight = name_under(prefix, "weight");
            let shape = vec![output, input];
            assert(shape@ =~= seq![output, input]);
            match self.validate(weight.as_str(), &shape) {
                Ok(_) => {},
                Err(error) => {
                    return Err(error);
                },
            }
            let bias_name = if bias {
                let name = name_under(prefix, "bias");
                let shape = vec![output];
                assert(shape@ =~= seq![output]);
                match self.validate(name.as_str(), &shape) {
                    Ok(_) => {},
                    Err(error) => {
                        return Err(error);
                    },
                }
                Some(name)
            } else {
                None
            };
            assert(self.consumed@.dom() =~= before.union(part_names(tensors, part)));
            Ok(LoadedPart::Dense { weight, bias: bias_name })
        }
    }
}

/// What is wrong with a model in a checkpoint: with its geometry, a part of it, tensors that no
/// part is loaded from, or that nothing is packed.
pub open spec fn model_fault(
    checkpoint: AwqCheckpoint,
    config: LlamaConfig,
    qwen2: bool,
    tied: bool,
    groups: AwqGroups,
    message: Seq<char>,
) -> bool {
    let tensors = checkpoint.tensors@;
    let parts = model_parts_spec(
        config,
        qwen2,
        tied,
        tensors.contains_key("lm_head.weight"@),
    );
    let unused = tensors.dom().difference(parts_names(tensors, parts));
    if config.fault() is Some {
        message == config.fault()->0.message()
    } else if parts_fault(checkpoint.quantization, tensors, groups, config, parts) is Some {
        message == parts_fault(checkpoint.quantization, tensors, groups, config, parts)->0
    } else if unused != Set::<Seq<char>>::empty() {
        exists|names: Seq<Seq<char>>| #[trigger]
            lists(names, unused) && message == "unconsumed AWQ model tensors: "@ + joined(
                names,
                ", "@,
            )
    } else {
        !any_packed(tensors, parts) && message == "AWQ model contains no packed projections"@
    }
}

/// A plan for a model: every part is loaded from tensors that fit it, no tensor is left over, and
/// something is packed.
pub open spec fn model_planned(
    checkpoint: AwqCheckpoint,
    config: LlamaConfig,
    qwen2: bool,
    tied: bool,
    groups: AwqGroups,
    plan: AwqModelPlan,
) -> bool {
    let tensors = checkpoint.tensors@;
    let parts = model_parts_spec(
        config,
        qwen2,
        tied,
        tensors.contains_key("lm_head.weight"@),
    );
    &&& config.fault() is None
    &&& parts_fault(checkpoint.quantization, tensors, groups, config, parts) is None
    &&& tensors.dom().subset_of(parts_names(tensors, parts))
    &&& any_packed(tensors, parts)
    &&& plan.parts@.len() == parts.len()
    &&& forall|i: int|
        0 <= i < parts.len() ==> loads(
            checkpoint.quantization,
            tensors,
            parts[i],
            #[trigger] plan.parts@[i],
        )
    &&& plan.consumed == parts_names(tensors, parts).len()
}

proof fn lemma_parts_fault_prefix(
    quantization: AwqQuantizationConfig,
    tensors: Map<Seq<char>, TensorInfo>,
    groups: AwqGroups,
    config: LlamaConfig,
    parts: Seq<PartModel>,
    n: int,
)
    requires
        0 <= n <= parts.len(),
        parts_fault(quantization, tensors, groups, config, parts.take(n)) is Some,
    ensures
        parts_fault(quantization, tensors, groups, config, parts) == parts_fault(
            quantization,
            tensors,
            groups,
            config,
            parts.take(n),
        ),
    decreases parts.len() - n,
{
    if n == parts.len() {
        assert(parts.take(n) =~= parts);
    } else {
        assert(parts.take(n + 1).drop_last() =~= parts.take(n));
        lemma_parts_fault_prefix(quantization, tensors, groups, config, parts, n + 1);
    }
}

/// Check a model against a checkpoint, and say what each part is loaded from.
#[verifier::loop_isolation(false)]
pub fn load_checkpoint(
    checkpoint: &AwqCheckpoint,
    config: &LlamaConfig,
    qwen2: bool,
    tied_embeddings: bool,
    groups: &AwqGroups,
) -> (result: Result<AwqModelPlan, HuggingFaceLoadError>)
    requires
        checkpoint.wf(),
    ensures
        match result {
            Ok(plan) => model_planned(
                *checkpoint,
                *config,
                qwen2,
                tied_embeddings,
                *groups,
                plan,
            ),
            Err(error) => model_fault(
                *checkpoint,
                *config,
                qwen2,
                tied_embeddings,
                *groups,
                error.0@,
            ),
        },
{
    match config.validate() {
        Ok(_) => {},
        Err(error) => {
            return Err(HuggingFaceLoadError(error.to_string()));
        },
    }
    proof {
        law_heads_cover_the_model(*config);
    }
    let kv: usize = config.num_kv_heads * config.head_dimension();
    let stored_head = checkpoint.tensor_info("lm_head.weight").is_some();
    let parts = model_parts(config, qwen2, tied_embeddings, stored_head);
    let ghost all = part_models(parts@);
    let ghost tensors = checkpoint.tensors@;
    let ghost quantization = checkpoint.quantization;
    let mut weights = Weights { checkpoint, consumed: NameMap::new(), packed_projections: 0 };
    let mut loaded: Vec<LoadedPart> = Vec::with_capacity(parts.len());
    let mut i: usize = 0;
    assert(all.take(0) =~= Seq::<PartModel>::empty());
    assert(weights.consumed@.dom() =~= parts_names(tensors, all.take(0)));
    while i < parts.len()
        invariant
            i <= parts@.len(),
            weights.checkpoint == checkpoint,
            weights.consumed.wf(),
            weights.packed_projections <= i,
            loaded@.len() == i,
            parts_fault(quantization, tensors, *groups, *config, all.take(i as int)) is None,
            weights.consumed@.dom() == parts_names(tensors, all.take(i as int)),
            weights.packed_projections > 0 <==> any_packed(tensors, all.take(i as int)),
            forall|j: int|
                0 <= j < i ==> loads(quantization, tensors, all[j], #[trigger] loaded@[j]),
        decreases parts@.len() - i,
    {
        let ghost shorter = all.take(i as int);
        let ghost longer = all.take(i + 1);
        let ghost now = all[i as int];
        let ghost packed_before = weights.packed_projections;
        proof {
            assert(longer.drop_last() =~= shorter);
            assert(longer.last() == now);
            assert(now == parts@[i as int]@);
            if part_fault(quantization, tensors, *groups, *config, now) is Some {
                lemma_parts_fault_prefix(quantization, tensors, *groups, *config, all, i + 1);
            }
        }
        match &parts[i] {
            Part::Tensor { name, shape } => {
                match weights.validate(name.as_str(), shape) {
                    Ok(_) => {},
                    Err(error) => {
                        return Err(error);
                    },
                }
                assert(weights.consumed@.dom() =~= parts_names(tensors, longer));
                loaded.push(LoadedPart::Tensor { name: name.clone() });
            },
            Part::Projection { prefix, input, output, bias } => {
                let share = groups.pick(config, kv, *input, *output);
                match weights.projection(
                    prefix.as_str(),
                    *input,
                    *output,
                    *bias,
                    share,
                    Ghost(*groups),
                    Ghost(*config),
                ) {
                    Ok(part) => {
                        loaded.push(part);
                    },
                    Err(error) => {
                        return Err(error);
                    },
                }
                assert(weights.consumed@.dom() =~= parts_names(tensors, longer));
            },
        }
        proof {
            if packed_before > 0 {
                let j = choose|j: int|
                    0 <= j < shorter.len() && packed_part(tensors, #[trigger] shorter[j]);
                assert(longer[j] == shorter[j]);
            }
            if packed_part(tensors, now) {
                assert(longer[i as int] == now);
            }
            if any_packed(tensors, longer) && !packed_part(tensors, now) {
                let j = choose|j: int|
                    0 <= j < longer.len() && packed_part(tensors, #[trigger] longer[j]);
                assert(j < i);
                assert(shorter[j] == longer[j]);
            }
        }
        i += 1;
    }
    assert(all.take(i as int) =~= all);
    let unused = difference(&checkpoint.tensors, &weights.consumed);
    proof {
        let names = texts(unused@);
        if unused@.len() > 0 {
            assert(names.to_set().contains(names[0]));
        } else {
            assert(names.to_set() =~= Set::<Seq<char>>::empty());
        }
    }
    if unused.len() > 0 {
        let mut message = text("unconsumed AWQ model tensors: ");
        message.append(join(&unused, ", ").as_str());
        return Err(HuggingFaceLoadError(message));
    }
    proof {
        assert forall|name: Seq<char>| tensors.dom().contains(name) implies #[trigger] parts_names(
            tensors,
            all,
        ).contains(name) by {
            if !parts_names(tensors, all).contains(name) {
                assert(tensors.dom().difference(parts_names(tensors, all)).contains(name));
            }
        }
    }
    if weights.packed_projections == 0 {
        return Err(refuse("AWQ model contains no packed projections"));
    }
    let consumed: usize = weights.consumed.len();
    Ok(AwqModelPlan { parts: loaded, consumed })
}

/// A model that can be loaded uses every tensor of its checkpoint, and only those.
pub proof fn law_plan_uses_every_tensor(
    checkpoint: AwqCheckpoint,
    config: LlamaConfig,
    qwen2: bool,
    tied: bool,
    groups: AwqGroups,
    plan: AwqModelPlan,
)
    requires
        model_planned(checkpoint, config, qwen2, tied, groups, plan),
    ensures
        parts_names(
            checkpoint.tensors@,
            model_parts_spec(
                config,
                qwen2,
                tied,
                checkpoint.tensors@.contains_key("lm_head.weight"@),
            ),
        ) == checkpoint.tensors@.dom(),
        plan.consumed == checkpoint.tensors@.dom().len(),
{
    let tensors = checkpoint.tensors@;
    let parts = model_parts_spec(
        config,
        qwen2,
        tied,
        tensors.contains_key("lm_head.weight"@),
    );
    lemma_names_present(checkpoint.quantization, tensors, groups, config, parts);
    assert(parts_names(tensors, parts) =~= tensors.dom());
}

proof fn lemma_names_present(
    quantization: AwqQuantizationConfig,
    tensors: Map<Seq<char>, TensorInfo>,
    groups: AwqGroups,
    config: LlamaConfig,
    parts: Seq<PartModel>,
)
    requires
        parts_fault(quantization, tensors, groups, config, parts) is None,
    ensures
        parts_names(tensors, parts).subset_of(tensors.dom()),
    decreases parts.len(),
{
    if parts.len() > 0 {
        lemma_names_present(quantization, tensors, groups, config, parts.drop_last());
        let part = parts.last();
        assert(part_fault(quantization, tensors, groups, config, part) is None);
        assert(part_names(tensors, part).subset_of(tensors.dom()));
    }
}

} // verus!
