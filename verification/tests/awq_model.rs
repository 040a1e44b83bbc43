use half::f16;
use rullm::generation::sampling::SamplingArithmetic;
use rullm::huggingface::awq::{awq_wording, AwqLinear};
use rullm::huggingface::awq_model::{AwqGroups, AwqModelPlan, LoadedPart};
use rullm::huggingface::chat::load_qwen_chat_template;
use rullm::huggingface::config::{
    load_generation_eos_token_ids, HuggingFaceLlamaConfig, HuggingFaceTokenIds,
};
use rullm::huggingface::directory::{AwqSteps, Qwen2Steps, Supplied};
use rullm::huggingface::keys::parameter_path;
use rullm::huggingface::loading::RotaryPlan;
use rullm::huggingface::tensors::{DType, Inventory, TensorInfo};
use rullm::llama::attention::causal_attention_mask;
use rullm::llama::model::ModelPass;
use rullm::llama::program::{Op, Parameter, Program};
use rullm::logits::LogitBlock;
use rullm::{
    load_huggingface_awq_qwen2, load_huggingface_awq_qwen2_pipeline,
    load_huggingface_llama_pipeline, load_huggingface_qwen2, load_huggingface_qwen2_pipeline,
    AwqCheckpoint, AwqLlamaForCausalLm, AwqQuantizationConfig, CausalModel, GreedyGenerationConfig,
    HuggingFaceAwqQwen2Pipeline, HuggingFaceLoadError, LlamaConfig, LlamaForCausalLm, LlamaKvCache,
    LoadedHuggingFaceAwqQwen2, LoadedHuggingFaceLlama, LoadedHuggingFaceQwen2, Qwen2ChatMessage,
    Qwen2ChatRole, SamplingConfig, SamplingGenerationConfig,
};
use std::collections::BTreeMap;
use std::path::PathBuf;
use tokenizers::models::wordlevel::WordLevel;
use tokenizers::pre_tokenizers::whitespace::WhitespaceSplit;
use tokenizers::processors::template::TemplateProcessing;
use tokenizers::{AddedToken, Tokenizer};

/// IEEE double-precision arithmetic on bit patterns.
struct Floats;

fn widened(values: &[u64]) -> Vec<f64> {
    values.iter().map(|&bits| f64::from_bits(bits)).collect()
}

impl SamplingArithmetic for Floats {
    fn exponential(&self, temperature: u64, logit: u32, maximum: u32) -> u64 {
        let difference = f32::from_bits(logit) as f64 - f32::from_bits(maximum) as f64;
        (difference / f64::from_bits(temperature)).exp().to_bits()
    }

    fn quotient(&self, left: u64, right: u64) -> u64 {
        (f64::from_bits(left) / f64::from_bits(right)).to_bits()
    }

    fn difference(&self, left: u64, right: u64) -> u64 {
        (f64::from_bits(left) - f64::from_bits(right)).to_bits()
    }

    fn cumulative(&self, weights: &[u64]) -> Vec<u64> {
        let mut sum = 0.0;
        widened(weights)
            .into_iter()
            .map(|weight| {
                sum += weight;
                f64::to_bits(sum)
            })
            .collect()
    }

    fn uniform(&self, numerator: u64) -> u64 {
        (numerator as f64 * (1.0 / (1_u64 << 53) as f64)).to_bits()
    }

    fn total(&self, weights: &[u64]) -> u64 {
        widened(weights).into_iter().sum::<f64>().to_bits()
    }

    fn product(&self, left: u64, right: u64) -> u64 {
        (f64::from_bits(left) * f64::from_bits(right)).to_bits()
    }
}

/// A dense tensor in row-major order.
#[derive(Clone, Debug, PartialEq)]
struct Tensor {
    dims: Vec<usize>,
    data: Vec<f32>,
}

fn offset(dims: &[usize], index: &[usize]) -> usize {
    dims.iter().zip(index).fold(0, |sum, (length, position)| sum * length + position)
}

impl Tensor {
    fn new(dims: &[usize], data: Vec<f32>) -> Self {
        assert_eq!(dims.iter().product::<usize>(), data.len());
        Tensor { dims: dims.to_vec(), data }
    }

    fn from_fn(dims: &[usize], mut f: impl FnMut(&[usize]) -> f32) -> Self {
        let count: usize = dims.iter().product();
        let mut index = vec![0; dims.len()];
        let mut data = Vec::with_capacity(count);
        for _ in 0..count {
            data.push(f(&index));
            for axis in (0..dims.len()).rev() {
                index[axis] += 1;
                if index[axis] < dims[axis] {
                    break;
                }
                index[axis] = 0;
            }
        }
        Tensor { dims: dims.to_vec(), data }
    }

    fn at(&self, index: &[usize]) -> f32 {
        self.data[offset(&self.dims, index)]
    }

    /// An element, with axes of length one spread.
    fn spread(&self, index: &[usize]) -> f32 {
        let index: Vec<usize> = index
            .iter()
            .zip(&self.dims)
            .map(|(position, length)| if *length == 1 { 0 } else { *position })
            .collect();
        self.at(&index)
    }

    fn slice(&self, axis: usize, start: usize, end: usize) -> Self {
        let mut dims = self.dims.clone();
        dims[axis] = end - start;
        Tensor::from_fn(&dims, |index| {
            let mut index = index.to_vec();
            index[axis] += start;
            self.at(&index)
        })
    }

    fn cat(&self, other: &Tensor, axis: usize) -> Self {
        let mut dims = self.dims.clone();
        dims[axis] += other.dims[axis];
        Tensor::from_fn(&dims, |index| {
            let mut index = index.to_vec();
            if index[axis] < self.dims[axis] {
                self.at(&index)
            } else {
                index[axis] -= self.dims[axis];
                other.at(&index)
            }
        })
    }

    fn map(&self, f: impl Fn(f32) -> f32) -> Self {
        Tensor { dims: self.dims.clone(), data: self.data.iter().map(|value| f(*value)).collect() }
    }
}

fn silu(value: f32) -> f32 {
    value / (1.0 + (-value).exp())
}

fn softmax(values: &[f32]) -> Vec<f32> {
    let maximum = values.iter().copied().fold(f32::NEG_INFINITY, f32::max);
    let shares: Vec<f32> = values.iter().map(|value| (value - maximum).exp()).collect();
    let total: f32 = shares.iter().sum();
    shares.iter().map(|share| share / total).collect()
}

/// The weights of a model by parameter, and its rotary table.
#[derive(Clone)]
struct Weights {
    tensors: BTreeMap<String, Tensor>,
    rope: Tensor,
    epsilon: f32,
}

impl Weights {
    fn get(&self, parameter: &Parameter) -> &Tensor {
        &self.tensors[&format!("{parameter:?}")]
    }

    fn bias(&self, parameter: &Parameter) -> Option<&Tensor> {
        self.tensors.get(&format!("{parameter:?}.bias"))
    }

    fn set(&mut self, parameter: Parameter, tensor: Tensor) {
        self.tensors.insert(format!("{parameter:?}"), tensor);
    }

    fn project(&self, parameter: &Parameter, x: &Tensor) -> Tensor {
        let weight = self.get(parameter);
        let (inputs, outputs) = (weight.dims[0], weight.dims[1]);
        assert_eq!(x.dims[2], inputs);
        let mut data = Vec::with_capacity(x.dims[0] * x.dims[1] * outputs);
        for row in x.data.chunks(inputs) {
            for column in 0..outputs {
                let sum: f32 =
                    (0..inputs).map(|k| row[k] * weight.data[k * outputs + column]).sum();
                data.push(sum + self.bias(parameter).map_or(0.0, |bias| bias.data[column]));
            }
        }
        Tensor::new(&[x.dims[0], x.dims[1], outputs], data)
    }

    fn norm(&self, parameter: &Parameter, x: &Tensor) -> Tensor {
        let gamma = self.get(parameter);
        let width = gamma.data.len();
        let mut data = Vec::with_capacity(x.data.len());
        for row in x.data.chunks(width) {
            let mean: f32 = row.iter().map(|value| value * value).sum::<f32>() / width as f32;
            let scale = 1.0 / (mean + self.epsilon).sqrt();
            data.extend(row.iter().zip(&gamma.data).map(|(value, gain)| value * scale * gain));
        }
        Tensor::new(&x.dims, data)
    }

    /// Rotate the halves of a head against one another.
    fn half_split(&self, x: &Tensor, start: usize) -> Tensor {
        let half = x.dims[3] / 2;
        Tensor::from_fn(&x.dims, |index| {
            let (position, k) = (start + index[2], index[3] % half);
            let cosine = self.rope.at(&[position, 2 * k, 0]);
            let sine = self.rope.at(&[position, 2 * k, 1]);
            let mut other = index.to_vec();
            let turned = if index[3] < half {
                other[3] += half;
                -x.at(&other)
            } else {
                other[3] -= half;
                x.at(&other)
            };
            x.at(index) * cosine + turned * sine
        })
    }

    /// Rotate adjacent pairs.
    fn interleaved(&self, x: &Tensor, start: usize) -> Tensor {
        Tensor::from_fn(&x.dims, |index| {
            let pair = index[3] / 2 * 2;
            let cosine = self.rope.at(&[start + index[2], pair, 0]);
            let sine = self.rope.at(&[start + index[2], pair, 1]);
            let mut other = index.to_vec();
            other[3] = pair + 1 - index[3] % 2;
            let turned = if index[3] == pair { -x.at(&other) } else { x.at(&other) };
            x.at(index) * cosine + turned * sine
        })
    }
}

fn matmul(x: &Tensor, y: &Tensor) -> Tensor {
    let dims = [x.dims[0], x.dims[1], x.dims[2], y.dims[3]];
    Tensor::from_fn(&dims, |index| {
        (0..x.dims[3])
            .map(|k| {
                x.at(&[index[0], index[1], index[2], k]) * y.at(&[index[0], index[1], k, index[3]])
            })
            .sum()
    })
}

/// Attention of queries from `start` on over the first `length` keys.
fn attention(q: &Tensor, k: &Tensor, v: &Tensor, start: usize, length: usize) -> Tensor {
    let groups = q.dims[1] / k.dims[1];
    let scale = 1.0 / (q.dims[3] as f32).sqrt();
    let mut rows: BTreeMap<(usize, usize, usize), Vec<f32>> = BTreeMap::new();
    for b in 0..q.dims[0] {
        for h in 0..q.dims[1] {
            for s in 0..q.dims[2] {
                let scores: Vec<f32> = (0..length.min(start + s + 1))
                    .map(|t| {
                        (0..q.dims[3])
                            .map(|d| q.at(&[b, h, s, d]) * k.at(&[b, h / groups, t, d]))
                            .sum::<f32>()
                            * scale
                    })
                    .collect();
                rows.insert((b, h, s), softmax(&scores));
            }
        }
    }
    Tensor::from_fn(&q.dims, |index| {
        rows[&(index[0], index[1], index[2])]
            .iter()
            .enumerate()
            .map(|(t, share)| share * v.at(&[index[0], index[1] / groups, t, index[3]]))
            .sum()
    })
}

/// What a program is given from outside.
#[derive(Clone, Default)]
struct Inputs {
    tokens: Vec<i32>,
    hidden: Option<Tensor>,
    keys: Vec<Option<Tensor>>,
    values: Vec<Option<Tensor>>,
}

/// The heads of one of the three parts of a packed projection.
fn packed_heads(all: &Tensor, first: usize, heads: usize, width: usize) -> Tensor {
    let dims = [all.dims[0], heads, all.dims[1], width];
    Tensor::from_fn(&dims, |index| {
        all.at(&[index[0], index[2], first + index[1] * width + index[3]])
    })
}

fn written(storage: &Tensor, start: usize, part: &Tensor) -> Tensor {
    Tensor::from_fn(&storage.dims, |index| {
        if index[2] >= start && index[2] < start + part.dims[2] {
            let mut index = index.to_vec();
            index[2] -= start;
            part.at(&index)
        } else {
            storage.at(index)
        }
    })
}

/// The value of every node of a program.
fn run(program: &Program, weights: &Weights, inputs: &Inputs) -> Vec<Tensor> {
    let mut done: Vec<Tensor> = Vec::new();
    for i in 0..program.len() {
        let node = program.node(i);
        let dims = &node.dims;
        let x = |id: &usize| &done[*id];
        let result = match &node.op {
            Op::Tokens => {
                Tensor::new(dims, inputs.tokens.iter().map(|token| *token as f32).collect())
            }
            Op::Hidden => inputs.hidden.clone().unwrap(),
            Op::CachedKey(layer) => inputs.keys[*layer].clone().unwrap(),
            Op::CachedValue(layer) => inputs.values[*layer].clone().unwrap(),
            Op::RotaryTable => weights.rope.clone(),
            Op::CausalMask { start } => Tensor::new(
                dims,
                causal_attention_mask(dims[2], dims[3], *start)
                    .into_iter()
                    .map(f32::from_bits)
                    .collect(),
            ),
            Op::Empty => Tensor::from_fn(dims, |_| f32::NAN),
            Op::Embed(tokens) => {
                let table = weights.get(&Parameter::Embedding);
                Tensor::from_fn(dims, |index| {
                    table.at(&[x(tokens).at(&index[..2]) as usize, index[2]])
                })
            }
            Op::Norm(p, a) | Op::NormKernel(p, a) => weights.norm(p, x(a)),
            Op::Project(p, a) => weights.project(p, x(a)),
            Op::ProjectColumns(p, span, a) => {
                weights.project(p, x(a)).slice(2, span.start, span.end)
            }
            Op::Slice(a, axis, span) => x(a).slice(*axis, span.start, span.end),
            Op::SliceAssign(a, axis, span, b) => {
                assert_eq!(*axis, 2);
                assert_eq!(span.end - span.start, x(b).dims[2]);
                written(x(a), span.start, x(b))
            }
            Op::Reshape(a) => Tensor::new(dims, x(a).data.clone()),
            Op::SwapDims(a, first, second) => Tensor::from_fn(dims, |index| {
                let mut index = index.to_vec();
                index.swap(*first, *second);
                x(a).at(&index)
            }),
            Op::RepeatDim(a, axis, _) => Tensor::from_fn(dims, |index| {
                let mut index = index.to_vec();
                index[*axis] = 0;
                x(a).at(&index)
            }),
            Op::Cat(a, b, axis) => x(a).cat(x(b), *axis),
            Op::Negate(a) => x(a).map(|value| -value),
            Op::Multiply(a, b) => {
                Tensor::from_fn(dims, |index| x(a).at(index) * x(b).spread(index))
            }
            Op::Add(a, b) => Tensor::from_fn(dims, |index| x(a).at(index) + x(b).spread(index)),
            Op::FusedSum(_, a, b) => Tensor::from_fn(dims, |index| x(a).at(index) + x(b).at(index)),
            Op::Silu(a) => x(a).map(silu),
            Op::Matmul(a, b) => matmul(x(a), x(b)),
            Op::ScaleByInverseRoot(a, n) => x(a).map(|value| value / (*n as f32).sqrt()),
            Op::Softmax(a, axis) => {
                assert_eq!(axis + 1, dims.len());
                let rows = x(a).data.chunks(dims[*axis]).flat_map(softmax).collect();
                Tensor::new(dims, rows)
            }
            Op::ToSingle(a) | Op::ToTypeOf(a, _) => x(a).clone(),
            Op::Rotate(a, start) => weights.interleaved(x(a), *start),
            Op::FlashAttention(q, k, v) => attention(x(q), x(k), x(v), 0, x(k).dims[2]),
            Op::FusedNorm(a) => match &program.node(*a).op {
                Op::FusedSum(p, _, _) => weights.norm(p, x(a)),
                _ => panic!("a fused norm follows a fused sum"),
            },
            Op::Swiglu(a) => Tensor::from_fn(dims, |index| {
                let gate = x(a).at(index);
                let up = x(a).at(&[index[0], index[1], index[2] + dims[2]]);
                silu(gate) * up
            }),
            Op::FusedQuery { projected, position, .. } => {
                weights.half_split(&packed_heads(x(projected), 0, dims[1], dims[3]), *position)
            }
            Op::FusedKey(query, storage) => match &program.node(*query).op {
                Op::FusedQuery { projected, position, start, .. } => {
                    let heads = program.node(*query).dims[1];
                    let part = packed_heads(x(projected), heads * dims[3], dims[1], dims[3]);
                    written(x(storage), *start, &weights.half_split(&part, *position))
                }
                _ => panic!("a fused key follows a fused query"),
            },
            Op::FusedValue(query, storage) => match &program.node(*query).op {
                Op::FusedQuery { projected, start, .. } => {
                    let first = (program.node(*query).dims[1] + dims[1]) * dims[3];
                    let part = packed_heads(x(projected), first, dims[1], dims[3]);
                    written(x(storage), *start, &part)
                }
                _ => panic!("a fused value follows a fused query"),
            },
            Op::DecodeAttention(q, k, v, n) => attention(x(q), x(k), x(v), n - 1, *n),
        };
        assert_eq!(&result.dims, dims, "node {i}");
        done.push(result);
    }
    done
}

fn rope_table(config: &LlamaConfig) -> Tensor {
    let width = config.head_dimension();
    let theta = f32::from_bits(config.rope_theta);
    Tensor::from_fn(&[config.max_sequence_length, width, 2], |index| {
        let pair = (index[1] / 2 * 2) as f32;
        let angle = index[0] as f32 / theta.powf(pair / width as f32);
        if index[2] == 0 { angle.cos() } else { angle.sin() }
    })
}


#[derive(Clone, Debug)]
struct StoredTensor {
    dtype: DType,
    shape: Vec<usize>,
    floats: Vec<f32>,
    words: Vec<u32>,
}

type StoredWeights = BTreeMap<String, StoredTensor>;

fn floats(shape: &[usize], values: impl IntoIterator<Item = f32>) -> StoredTensor {
    StoredTensor {
        dtype: DType::F16,
        shape: shape.to_vec(),
        floats: values.into_iter().map(|value| f16::from_f32(value).to_f32()).collect(),
        words: vec![],
    }
}

fn words(shape: &[usize], values: impl IntoIterator<Item = u32>) -> StoredTensor {
    StoredTensor {
        dtype: DType::I32,
        shape: shape.to_vec(),
        floats: vec![],
        words: values.into_iter().collect(),
    }
}

fn model_weights() -> (StoredWeights, StoredWeights) {
    let mut dense = StoredWeights::new();
    dense.insert(
        "model.embed_tokens.weight".into(),
        floats(
            &[24, 16],
            (0..384).map(|index| ((index * 7 % 29) as f32 - 14.0) / 32.0),
        ),
    );
    for name in [
        "model.norm.weight",
        "model.layers.0.input_layernorm.weight",
        "model.layers.0.post_attention_layernorm.weight",
    ] {
        dense.insert(
            name.into(),
            floats(&[16], (0..16).map(|index| 1.0 + index as f32 / 128.0)),
        );
    }
    dense.insert(
        "lm_head.weight".into(),
        floats(
            &[24, 16],
            (0..384).map(|index| ((index * 11 % 23) as f32 - 11.0) / 64.0),
        ),
    );
    let mut packed = dense.clone();
    for (projection_index, (suffix, k, n, bias)) in [
        ("self_attn.q_proj", 16, 16, true),
        ("self_attn.k_proj", 16, 8, true),
        ("self_attn.v_proj", 16, 8, true),
        ("self_attn.o_proj", 16, 16, false),
        ("mlp.gate_proj", 16, 32, false),
        ("mlp.up_proj", 16, 32, false),
        ("mlp.down_proj", 32, 16, false),
    ]
    .into_iter()
    .enumerate()
    {
        let prefix = format!("model.layers.0.{suffix}");
        let integer =
            |row: usize, column: usize| ((row * 3 + column * 5 + projection_index * 7) % 16) as u32;
        let zero =
            |group: usize, column: usize| ((group + column + projection_index) % 5 + 6) as u32;
        let scale = |group: usize, column: usize| ((group + column) % 3 + 1) as f32 / 128.0;
        let mut decoded = Vec::new();
        for column in 0..n {
            for row in 0..k {
                decoded.push(
                    (integer(row, column) as f32 - zero(row / 8, column) as f32)
                        * scale(row / 8, column),
                );
            }
        }
        let dense_weight = floats(&[n, k], decoded);
        dense.insert(format!("{prefix}.weight"), dense_weight.clone());
        if suffix == "self_attn.o_proj" {
            packed.insert(format!("{prefix}.weight"), dense_weight);
        } else {
            let pack = |row: usize, block: usize, zeros: bool| {
                [0, 2, 4, 6, 1, 3, 5, 7].into_iter().enumerate().fold(
                    0u32,
                    |word, (nibble, lane)| {
                        let column = block * 8 + lane;
                        word | (if zeros {
                            zero(row, column)
                        } else {
                            integer(row, column)
                        } << (4 * nibble))
                    },
                )
            };
            packed.insert(
                format!("{prefix}.qweight"),
                words(
                    &[k, n / 8],
                    (0..k).flat_map(|row| (0..n / 8).map(move |block| pack(row, block, false))),
                ),
            );
            packed.insert(
                format!("{prefix}.qzeros"),
                words(
                    &[k / 8, n / 8],
                    (0..k / 8).flat_map(|row| (0..n / 8).map(move |block| pack(row, block, true))),
                ),
            );
            packed.insert(
                format!("{prefix}.scales"),
                floats(
                    &[k / 8, n],
                    (0..k / 8).flat_map(|row| (0..n).map(move |column| scale(row, column))),
                ),
            );
        }
        if bias {
            let value = floats(&[n], (0..n).map(|column| (column as f32 - 4.0) / 128.0));
            dense.insert(format!("{prefix}.bias"), value.clone());
            packed.insert(format!("{prefix}.bias"), value);
        }
    }
    (packed, dense)
}

fn config() -> LlamaConfig {
    LlamaConfig {
        vocab_size: 24,
        d_model: 16,
        d_ff: 32,
        num_hidden_layers: 1,
        num_query_heads: 2,
        num_kv_heads: 1,
        max_sequence_length: 16,
        rms_norm_epsilon: 0.000001_f64.to_bits(),
        rope_theta: 1_000_000.0_f32.to_bits(),
    }
}

fn parameter(prefix: &str) -> Parameter {
    match prefix {
        "model.embed_tokens" => Parameter::Embedding,
        "model.norm" => Parameter::FinalNorm,
        "lm_head" => Parameter::Head,
        "model.layers.0.input_layernorm" => Parameter::InputNorm(0),
        "model.layers.0.post_attention_layernorm" => Parameter::PostNorm(0),
        "model.layers.0.self_attn.q_proj" => Parameter::Query(0),
        "model.layers.0.self_attn.k_proj" => Parameter::Key(0),
        "model.layers.0.self_attn.v_proj" => Parameter::Value(0),
        "model.layers.0.self_attn.o_proj" => Parameter::Output(0),
        "model.layers.0.mlp.gate_proj" => Parameter::Gate(0),
        "model.layers.0.mlp.up_proj" => Parameter::Up(0),
        "model.layers.0.mlp.down_proj" => Parameter::Down(0),
        _ => panic!("{prefix}"),
    }
}

fn stem(name: &str) -> &str {
    name.rsplit_once('.').unwrap().0
}

fn empty_weights() -> Weights {
    Weights {
        tensors: BTreeMap::new(),
        rope: rope_table(&config()),
        epsilon: f64::from_bits(config().rms_norm_epsilon) as f32,
    }
}

/// A dense weight, with one row per output in storage and one per input in use.
fn set_dense(weights: &mut Weights, name: &str, stored: &StoredTensor) {
    let target = parameter(stem(name));
    if stored.shape.len() == 1 {
        weights.set(target, Tensor::new(&stored.shape, stored.floats.clone()));
    } else if target == Parameter::Embedding {
        weights.set(target, Tensor::new(&stored.shape, stored.floats.clone()));
    } else {
        let (n, k) = (stored.shape[0], stored.shape[1]);
        weights.set(target, Tensor::from_fn(&[k, n], |index| stored.floats[index[1] * k + index[0]]));
    }
}

fn set_bias(weights: &mut Weights, name: &str, stored: &StoredTensor) {
    let key = format!("{:?}.bias", parameter(stem(name)));
    weights.tensors.insert(key, Tensor::new(&stored.shape, stored.floats.clone()));
}

/// A packed weight, taken apart nibble by nibble.
fn set_packed(weights: &mut Weights, stored: &StoredWeights, linear: &AwqLinear) {
    let (qweight, qzeros, scales) =
        (&stored[&linear.qweight], &stored[&linear.qzeros], &stored[&linear.scales]);
    let (k, blocks) = (qweight.shape[0], qweight.shape[1]);
    let nibble = |word: u32, column: usize| {
        let position = [0, 4, 1, 5, 2, 6, 3, 7][column % 8];
        ((word >> (4 * position)) & 15) as f32
    };
    let decoded = Tensor::from_fn(&[k, blocks * 8], |index| {
        let (row, column) = (index[0], index[1]);
        let group = row / linear.group_size;
        let integer = nibble(qweight.words[row * blocks + column / 8], column);
        let zero = nibble(qzeros.words[group * blocks + column / 8], column);
        (integer - zero) * scales.floats[group * blocks * 8 + column]
    });
    weights.set(parameter(stem(&linear.qweight)), decoded);
}

/// A model that runs on the host.
struct Host {
    model: AwqLlamaForCausalLm,
    weights: Weights,
}

/// The cache of such a model.
struct Cache {
    kv: LlamaKvCache,
    inputs: Inputs,
}

impl Cache {
    fn new(kv: LlamaKvCache) -> Self {
        let layers = kv.layers.len();
        Cache {
            kv,
            inputs: Inputs { keys: vec![None; layers], values: vec![None; layers], ..Default::default() },
        }
    }

    fn pass(
        &mut self,
        weights: &Weights,
        tokens: &[i32],
        build: impl FnOnce(&mut Program, usize, &mut LlamaKvCache) -> ModelPass,
    ) -> Tensor {
        let mut program = Program::new();
        let id = program.emit(Op::Tokens, vec![1, tokens.len()]);
        self.inputs.tokens = tokens.to_vec();
        let pass = build(&mut program, id, &mut self.kv);
        let values = run(&program, weights, &self.inputs);
        for (layer, stored) in pass.stores.iter().enumerate() {
            self.inputs.keys[layer] = Some(values[stored.key].clone());
            self.inputs.values[layer] = Some(values[stored.value].clone());
        }
        values[pass.output].clone()
    }
}

impl Host {
    fn forward(&self, tokens: &[i32]) -> Tensor {
        let mut program = Program::new();
        let id = program.emit(Op::Tokens, vec![1, tokens.len()]);
        let output = self.model.forward(&mut program, id);
        let inputs = Inputs { tokens: tokens.to_vec(), ..Default::default() };
        run(&program, &self.weights, &inputs)[output].clone()
    }

    fn forward_cached(&self, tokens: &[i32], cache: &mut Cache) -> Tensor {
        cache.pass(&self.weights, tokens, |program, id, kv| self.model.forward_cached(program, id, kv))
    }

    fn last(&self, tokens: &[i32], cache: &mut Cache) -> Tensor {
        cache.pass(&self.weights, tokens, |program, id, kv| {
            self.model.forward_cached_last(program, id, kv)
        })
    }
}

impl CausalModel for Host {
    type Cache = Cache;

    fn new_cache(&self) -> Cache {
        Cache::new(self.model.new_cache())
    }

    fn forward_cached_last(&self, tokens: &[i32], cache: &mut Cache) -> LogitBlock {
        let logits = self.last(tokens, cache);
        let values = logits.data.iter().map(|value| value.to_bits()).collect();
        LogitBlock::new(1, 1, logits.dims[2], values).unwrap()
    }

    fn sync(&self) -> Result<(), String> {
        Ok(())
    }
}

fn quantization() -> AwqQuantizationConfig {
    AwqQuantizationConfig {
        quant_method: "awq".into(),
        bits: 4,
        group_size: 8,
        zero_point: true,
        version: "gemm".into(),
        modules_to_not_convert: Some(vec!["lm_head".into(), "o_proj".into()]),
    }
}

fn groups() -> AwqGroups {
    AwqGroups {
        model_to_model: Ok(2),
        model_to_kv: Ok(2),
        model_to_ff: Ok(2),
        ff_to_model: Ok(4),
        model_to_vocabulary: Ok(2),
    }
}

fn checkpoint(stored: &StoredWeights) -> AwqCheckpoint {
    let mut inventory = Inventory::new(None);
    let tensors = stored
        .iter()
        .map(|(name, tensor)| {
            (name.clone(), TensorInfo { dtype: tensor.dtype, shape: tensor.shape.clone() })
        })
        .collect();
    inventory.add_shard(b"model.safetensors", tensors, &awq_wording()).unwrap();
    AwqCheckpoint::open(PathBuf::from("model"), quantization(), vec![], inventory).unwrap()
}

fn build(model: AwqLlamaForCausalLm, stored: &StoredWeights, plan: &AwqModelPlan) -> Host {
    let mut weights = empty_weights();
    for part in &plan.parts {
        match part {
            LoadedPart::Tensor { name } => set_dense(&mut weights, name, &stored[name]),
            LoadedPart::Packed(linear) => {
                set_packed(&mut weights, stored, linear);
                if let Some(bias) = &linear.bias {
                    set_bias(&mut weights, bias, &stored[bias]);
                }
            }
            LoadedPart::Dense { weight, bias } => {
                set_dense(&mut weights, weight, &stored[weight]);
                if let Some(bias) = bias {
                    set_bias(&mut weights, bias, &stored[bias]);
                }
            }
        }
    }
    Host { model, weights }
}

/// Let the embeddings stand for the head.
fn tie_head(mut model: Host, stored: &StoredWeights) -> Host {
    set_dense(&mut model.weights, "lm_head.weight", &stored["model.embed_tokens.weight"]);
    model
}

fn load_awq(
    stored: &StoredWeights,
    tied: bool,
    eos: Vec<i32>,
) -> Result<LoadedHuggingFaceAwqQwen2<Host>, HuggingFaceLoadError> {
    load_huggingface_awq_qwen2(
        PathBuf::from("config.json"),
        source(tied),
        AwqSteps {
            read_generation: || {
                let eos = eos.into_iter().map(i64::from).collect();
                Ok(Some(Some(HuggingFaceTokenIds::Many(eos))))
            },
            open: || Ok(checkpoint(stored)),
            groups: |_: &LlamaConfig, _: &AwqCheckpoint| groups(),
            build: |model: AwqLlamaForCausalLm, _: &AwqCheckpoint, plan: &AwqModelPlan| {
                Ok(build(model, stored, plan))
            },
            tie: |model: Host| tie_head(model, stored),
            sync: || Ok(()),
        },
    )
}

/// The `config.json` of the model.
fn source(tied: bool) -> HuggingFaceLlamaConfig {
    let config = config();
    HuggingFaceLlamaConfig {
        model_type: Some("qwen2".into()),
        architectures: Some(vec!["Qwen2ForCausalLM".into()]),
        vocab_size: config.vocab_size,
        hidden_size: config.d_model,
        intermediate_size: config.d_ff,
        num_hidden_layers: config.num_hidden_layers,
        num_attention_heads: config.num_query_heads,
        num_key_value_heads: Some(config.num_kv_heads),
        max_position_embeddings: config.max_sequence_length,
        rms_norm_eps: config.rms_norm_epsilon,
        rope_theta: Some(config.rope_theta),
        rope_scaling: false,
        rope_parameters: false,
        hidden_act: None,
        attention_bias: None,
        mlp_bias: None,
        attention_dropout: None,
        tie_word_embeddings: Some(tied),
        head_dim: None,
        eos_token_id: Some(HuggingFaceTokenIds::One(23)),
        use_sliding_window: None,
        use_mrope: None,
    }
}

fn fill_dense(mut model: Host, stored: &StoredWeights, tied: bool) -> (Host, Supplied) {
    let mut supplied = Supplied { applied: vec![], unused: vec![] };
    for (name, tensor) in stored {
        if tied && name == "lm_head.weight" {
            supplied.unused.push(name.clone());
            continue;
        }
        if name.ends_with(".bias") {
            set_bias(&mut model.weights, name, tensor);
        } else {
            set_dense(&mut model.weights, name, tensor);
        }
        supplied.applied.push(parameter_path(name));
    }
    (model, supplied)
}

fn load_dense(stored: &StoredWeights, tied: bool) -> LoadedHuggingFaceQwen2<Host> {
    load_huggingface_qwen2(
        PathBuf::from("config.json"),
        source(tied),
        Qwen2Steps {
            read_generation: || Ok(None),
            find_files: || Ok(vec![PathBuf::from("model.safetensors")]),
            build: |model: LlamaForCausalLm| Host {
                model: AwqLlamaForCausalLm { model },
                weights: empty_weights(),
            },
            load: |model: Host, _: &PathBuf| {
                let (model, supplied) = fill_dense(model, stored, tied);
                (model, Ok(supplied))
            },
            tie: |model: Host| tie_head(model, stored),
            layer_types: |_: &Host| vec![(DType::F16, DType::F16); config().num_hidden_layers],
            set_tables: |model: Host, plan: RotaryPlan| {
                assert!(plan.build.is_empty());
                model
            },
            sync: || Ok(()),
        },
    )
    .unwrap()
}

fn compare(actual: Tensor, expected: Tensor) {
    assert_eq!(actual.dims, expected.dims);
    for (index, (actual, expected)) in actual.data.into_iter().zip(expected.data).enumerate() {
        let tolerance = 8.0 * f16::EPSILON.to_f32() * expected.abs().max(1.0);
        assert!(
            actual.is_finite() && expected.is_finite() && (actual - expected).abs() <= tolerance,
            "logit {index}: {actual} != {expected}, tolerance {tolerance}"
        );
    }
}

#[test]
fn full_awq_qwen_matches_dense_weights_for_prefill_and_cached_decode() {
    let (packed, dense) = model_weights();
    let loaded = load_awq(&packed, false, vec![23]).unwrap();
    let reference = load_dense(&dense, false);
    assert_eq!(loaded.report.applied_tensors, packed.len());
    compare(loaded.model.forward(&[1, 4, 9]), reference.model.forward(&[1, 4, 9]));
    let mut cache = loaded.model.new_cache();
    let mut reference_cache = reference.model.new_cache();
    for ids in [&[1, 4][..], &[9][..], &[2, 6][..]] {
        compare(
            loaded.model.forward_cached(ids, &mut cache),
            reference.model.forward_cached(ids, &mut reference_cache),
        );
        assert_eq!(cache.kv.position(), reference_cache.kv.position());
    }
    assert_eq!(cache.kv.position(), 5);
}

#[test]
fn awq_qwen_tied_embedding_and_last_logits_keep_original_cache_semantics() {
    let (packed, dense) = model_weights();
    let loaded = load_awq(&packed, true, vec![23]).unwrap();
    let reference = load_dense(&dense, true);
    let mut cache = loaded.model.new_cache();
    let mut reference_cache = reference.model.new_cache();
    compare(
        loaded.model.last(&[2, 5], &mut cache),
        reference.model.last(&[2, 5], &mut reference_cache),
    );
    assert_eq!(cache.kv.position(), 2);
    assert!(loaded.report.tied_word_embeddings);
}

#[test]
fn awq_generation_reuses_seeded_sampling_and_length_validation() {
    let (packed, _) = model_weights();
    let loaded = load_awq(&packed, false, vec![23]).unwrap();
    let generation = SamplingGenerationConfig {
        max_new_tokens: 3,
        eos_token_ids: vec![],
        sampling: SamplingConfig {
            seed: Some(17),
            ..Default::default()
        },
    };
    let first = loaded
        .generate_tokens_sampled(&[1, 4], generation.clone(), &Floats)
        .unwrap();
    let second = loaded
        .generate_tokens_sampled(&[1, 4], generation, &Floats)
        .unwrap();
    assert_eq!(first, second);
    let empty = loaded
        .generate_tokens(
            &[1, 4],
            GreedyGenerationConfig {
                max_new_tokens: 0,
                eos_token_ids: vec![],
            },
        )
        .unwrap();
    assert!(empty.generated_token_ids.is_empty());
    assert_eq!(empty.token_ids, vec![1, 4]);
    assert!(loaded.generate_tokens(&[], GreedyGenerationConfig::default()).is_err());
}

#[test]
fn quantized_directories_are_read_in_order() {
    let (packed, _) = model_weights();
    let loaded = load_awq(&packed, true, vec![23, 7]).unwrap();
    assert_eq!(loaded.config, config());
    assert_eq!(loaded.default_eos_token_ids, [7, 23]);
    assert_eq!(loaded.report.config_path, PathBuf::from("config.json"));
    assert!(loaded.report.weight_files.is_empty());
    assert!(loaded.report.tied_word_embeddings);
    match load_awq(&packed, false, vec![24]) {
        Ok(_) => panic!("the end token is outside the vocabulary"),
        Err(error) => assert!(error.0.contains("outside vocabulary"), "{}", error.0),
    }
    let refused = load_huggingface_awq_qwen2(
        PathBuf::new(),
        source(false),
        AwqSteps {
            read_generation: || Ok(None),
            open: || Err(HuggingFaceLoadError("no checkpoint".into())),
            groups: |_: &LlamaConfig, _: &AwqCheckpoint| groups(),
            build: |_: AwqLlamaForCausalLm, _: &AwqCheckpoint, _: &AwqModelPlan| {
                Err::<Host, _>(HuggingFaceLoadError("no weights".into()))
            },
            tie: |model: Host| model,
            sync: || Ok(()),
        },
    );
    match refused {
        Ok(_) => panic!("there is no checkpoint"),
        Err(error) => assert_eq!(error.0, "no checkpoint"),
    }
    let unfinished = load_huggingface_awq_qwen2(
        PathBuf::new(),
        source(false),
        AwqSteps {
            read_generation: || Ok(None),
            open: || Ok(checkpoint(&packed)),
            groups: |_: &LlamaConfig, _: &AwqCheckpoint| groups(),
            build: |model: AwqLlamaForCausalLm, _: &AwqCheckpoint, plan: &AwqModelPlan| {
                Ok(build(model, &packed, plan))
            },
            tie: |model: Host| model,
            sync: || Err("lost".to_string()),
        },
    );
    match unfinished {
        Ok(_) => panic!("the upload did not complete"),
        Err(error) => assert_eq!(error.0, "AWQ weight upload did not complete: lost"),
    }
}

#[test]
fn awq_model_loader_rejects_unconsumed_and_missing_weights() {
    let (mut packed, _) = model_weights();
    packed.insert("model.unused.weight".into(), floats(&[1], [1.0]));
    let message = |stored: &StoredWeights| match load_awq(stored, false, vec![23]) {
        Ok(_) => String::new(),
        Err(error) => error.to_string(),
    };
    assert_eq!(message(&packed), "unconsumed AWQ model tensors: model.unused.weight");
    packed.remove("model.unused.weight");
    packed.remove("model.layers.0.self_attn.k_proj.bias");
    assert_ne!(message(&packed), "");
    let (_, dense) = model_weights();
    assert_eq!(message(&dense), "AWQ model contains no packed projections");
}

const CHAT_TEMPLATE: &str = "{% for message in messages %}{{ '<|im_start|>' + message.role + '\\n' + message.content + '<|im_end|>\\n' }}{% endfor %}{% if add_generation_prompt %}{{ '<|im_start|>assistant\\n' }}{% endif %}";

fn tokenizer(vocabulary_size: usize) -> Tokenizer {
    let vocabulary = (0..vocabulary_size)
        .map(|index| {
            let token = match index {
                0 => "[UNK]".into(),
                1 => "hello".into(),
                2 => "world".into(),
                3 => "answer".into(),
                4 => "[BOS]".into(),
                5 => "[EOS]".into(),
                _ => format!("token{index}"),
            };
            (token, index as u32)
        })
        .collect();
    let model = WordLevel::builder()
        .vocab(vocabulary)
        .unk_token("[UNK]".into())
        .build()
        .unwrap();
    let mut tokenizer = Tokenizer::new(model);
    tokenizer.with_pre_tokenizer(Some(WhitespaceSplit));
    tokenizer
        .add_special_tokens([
            AddedToken::from("[UNK]", true),
            AddedToken::from("[BOS]", true),
            AddedToken::from("[EOS]", true),
        ])
        .unwrap();
    tokenizer.with_post_processor(Some(
        TemplateProcessing::builder()
            .try_single("[BOS] $A [EOS]")
            .unwrap()
            .special_tokens(vec![("[BOS]", 4), ("[EOS]", 5)])
            .build()
            .unwrap(),
    ));
    tokenizer
}

fn awq_pipeline(eos: Vec<i32>) -> HuggingFaceAwqQwen2Pipeline<Host> {
    let (packed, _) = model_weights();
    let template = load_qwen_chat_template("tokenizer_config.json", Some(CHAT_TEMPLATE.into()));
    let loaded = load_awq(&packed, false, eos).unwrap();
    match load_huggingface_awq_qwen2_pipeline(tokenizer(24), template.unwrap(), loaded) {
        Ok(pipeline) => pipeline,
        Err(error) => panic!("{}", error.to_string()),
    }
}

#[test]
fn awq_text_pipeline_preserves_tokenizer_flags_ids_and_plain_chat() {
    let (_, dense) = model_weights();
    let pipeline = awq_pipeline(vec![23]);
    let reference = match load_huggingface_qwen2_pipeline(
        tokenizer(24),
        CHAT_TEMPLATE.to_string(),
        load_dense(&dense, false),
    ) {
        Ok(reference) => reference,
        Err(error) => panic!("{}", error.to_string()),
    };
    assert_eq!(pipeline.chat_template, CHAT_TEMPLATE);
    assert_eq!(pipeline.encode("hello world", false).unwrap(), vec![1, 2]);
    assert_eq!(
        pipeline.encode("hello world", true).unwrap(),
        vec![4, 1, 2, 5]
    );
    for special in [false, true] {
        assert_eq!(
            pipeline.encode("hello world", special).unwrap(),
            reference.encode("hello world", special).unwrap()
        );
        assert_eq!(
            pipeline.decode(&[4, 1, 2, 5], special).unwrap(),
            reference.decode(&[4, 1, 2, 5], special).unwrap()
        );
    }
    assert_eq!(pipeline.decode(&[4, 1, 2, 5], true).unwrap(), "hello world");
    assert_eq!(
        pipeline.decode(&[-1], true).unwrap_err(),
        reference.decode(&[-1], true).unwrap_err()
    );
    let messages = [Qwen2ChatMessage::new(Qwen2ChatRole::User, "hello")];
    for generation_prompt in [false, true] {
        assert_eq!(
            pipeline.render_chat(&messages, generation_prompt).unwrap(),
            reference.render_chat(&messages, generation_prompt).unwrap()
        );
        assert_eq!(
            pipeline.encode_chat(&messages, generation_prompt).unwrap(),
            reference.encode_chat(&messages, generation_prompt).unwrap()
        );
    }
    assert_eq!(
        pipeline.render_chat(&[], true).unwrap_err(),
        reference.render_chat(&[], true).unwrap_err()
    );
}

#[test]
fn awq_text_generation_matches_token_entry_points_and_inherits_generation_eos() {
    let generation = Some(Some(HuggingFaceTokenIds::Many(vec![2, 7])));
    let eos = load_generation_eos_token_ids(generation, 24, vec![23]).unwrap();
    let pipeline = awq_pipeline(eos);
    assert_eq!(pipeline.loaded.default_eos_token_ids, vec![2, 7]);
    let greedy = GreedyGenerationConfig {
        max_new_tokens: 2,
        eos_token_ids: vec![],
    };
    let text = pipeline
        .generate_text("hello world", greedy.clone(), false, true)
        .unwrap();
    let tokens = pipeline.loaded.generate_tokens(&[1, 2], greedy).unwrap();
    assert_eq!(text.token_ids, tokens.token_ids);
    assert_eq!(text.generated_token_ids, tokens.generated_token_ids);
    assert_eq!(text.stopped_on_eos, tokens.stopped_on_eos);
    assert_eq!(text.text, pipeline.decode(&tokens.token_ids, true).unwrap());
    assert_eq!(
        text.generated_text,
        pipeline.decode(&tokens.generated_token_ids, true).unwrap()
    );
    let sampling = SamplingGenerationConfig {
        max_new_tokens: 2,
        eos_token_ids: vec![],
        sampling: SamplingConfig {
            seed: Some(79),
            ..Default::default()
        },
    };
    let text = pipeline
        .generate_text_sampled("hello world", sampling.clone(), true, false, &Floats)
        .unwrap();
    let tokens = pipeline
        .loaded
        .generate_tokens_sampled(&[4, 1, 2, 5], sampling, &Floats)
        .unwrap();
    assert_eq!(text.token_ids, tokens.token_ids);
    assert_eq!(text.generated_token_ids, tokens.generated_token_ids);
    assert_eq!(text.stopped_on_eos, tokens.stopped_on_eos);
    assert_eq!(
        text.text,
        pipeline.decode(&tokens.token_ids, false).unwrap()
    );
    assert_eq!(
        text.generated_text,
        pipeline.decode(&tokens.generated_token_ids, false).unwrap()
    );
}

#[test]
fn awq_text_pipeline_rejects_unsupported_template_and_bad_ids() {
    let (packed, _) = model_weights();
    let template = load_qwen_chat_template("tokenizer_config.json", Some("unsupported".into()));
    assert!(template.unwrap_err().0.contains("supported plain-message ChatML"));
    let loaded = load_awq(&packed, false, vec![23]).unwrap();
    match load_huggingface_awq_qwen2_pipeline(tokenizer(25), CHAT_TEMPLATE.into(), loaded) {
        Ok(_) => panic!("the tokenizer has a token more than the model"),
        Err(error) => assert!(error.0.contains("outside model vocabulary"), "{}", error.0),
    }
}

#[test]
fn llama_pipelines_need_the_vocabulary_of_their_model() {
    let (_, dense) = model_weights();
    let pipeline = |vocabulary: usize| {
        let loaded = load_dense(&dense, false);
        load_huggingface_llama_pipeline(
            tokenizer(vocabulary),
            LoadedHuggingFaceLlama {
                model: loaded.model,
                config: loaded.config,
                default_eos_token_ids: loaded.default_eos_token_ids,
                report: loaded.report,
            },
        )
    };
    match pipeline(23) {
        Ok(_) => panic!("one token is missing"),
        Err(error) => assert_eq!(
            error.to_string(),
            "tokenizer vocabulary 23 does not equal model vocabulary 24"
        ),
    }
    match pipeline(24) {
        Ok(pipeline) => {
            assert_eq!(pipeline.encode("answer", true).unwrap(), vec![4, 3, 5]);
            let greedy = GreedyGenerationConfig { max_new_tokens: 1, eos_token_ids: vec![] };
            let text = pipeline.generate_text("hello", greedy, false, false).unwrap();
            assert_eq!(text.token_ids.len(), 2);
            assert!(text.text.starts_with("hello"));
        }
        Err(error) => panic!("{}", error.to_string()),
    }
}
