use rullm::llama::attention::{
    apply_half_split_rope, causal_attention_mask, repeat_kv, RotaryLayout,
};
use rullm::llama::heads::{join_heads, split_heads, Linear};
use rullm::llama::model::ModelPass;
use rullm::llama::program::{Op, Parameter, Program};
use rullm::{LlamaConfig, LlamaConfigError, LlamaForCausalLm, LlamaKvCache, LlamaLayerCache};
use std::collections::BTreeMap;

/// A dense tensor in row-major order.
#[derive(Clone, Debug, PartialEq)]
struct Tensor {
    dims: Vec<usize>,
    data: Vec<f32>,
}

fn offset(dims: &[usize], index: &[usize]) -> usize {
    dims.iter().zip(index).fold(0, |sum, (length, position)| sum * length + position)
}

impl Tensor {
    fn new(dims: &[usize], data: Vec<f32>) -> Self {
        assert_eq!(dims.iter().product::<usize>(), data.len());
        Tensor { dims: dims.to_vec(), data }
    }

    fn from_fn(dims: &[usize], mut f: impl FnMut(&[usize]) -> f32) -> Self {
        let count: usize = dims.iter().product();
        let mut index = vec![0; dims.len()];
        let mut data = Vec::with_capacity(count);
        for _ in 0..count {
            data.push(f(&index));
            for axis in (0..dims.len()).rev() {
                index[axis] += 1;
                if index[axis] < dims[axis] {
                    break;
                }
                index[axis] = 0;
            }
        }
        Tensor { dims: dims.to_vec(), data }
    }

    fn at(&self, index: &[usize]) -> f32 {
        self.data[offset(&self.dims, index)]
    }

    /// An element, with axes of length one spread.
    fn spread(&self, index: &[usize]) -> f32 {
        let index: Vec<usize> = index
            .iter()
            .zip(&self.dims)
            .map(|(position, length)| if *length == 1 { 0 } else { *position })
            .collect();
        self.at(&index)
    }

    fn slice(&self, axis: usize, start: usize, end: usize) -> Self {
        let mut dims = self.dims.clone();
        dims[axis] = end - start;
        Tensor::from_fn(&dims, |index| {
            let mut index = index.to_vec();
            index[axis] += start;
            self.at(&index)
        })
    }

    fn cat(&self, other: &Tensor, axis: usize) -> Self {
        let mut dims = self.dims.clone();
        dims[axis] += other.dims[axis];
        Tensor::from_fn(&dims, |index| {
            let mut index = index.to_vec();
            if index[axis] < self.dims[axis] {
                self.at(&index)
            } else {
                index[axis] -= self.dims[axis];
                other.at(&index)
            }
        })
    }

    fn map(&self, f: impl Fn(f32) -> f32) -> Self {
        Tensor { dims: self.dims.clone(), data: self.data.iter().map(|value| f(*value)).collect() }
    }
}

fn silu(value: f32) -> f32 {
    value / (1.0 + (-value).exp())
}

fn softmax(values: &[f32]) -> Vec<f32> {
    let maximum = values.iter().copied().fold(f32::NEG_INFINITY, f32::max);
    let shares: Vec<f32> = values.iter().map(|value| (value - maximum).exp()).collect();
    let total: f32 = shares.iter().sum();
    shares.iter().map(|share| share / total).collect()
}

/// The weights of a model by parameter, and its rotary table.
#[derive(Clone)]
struct Weights {
    tensors: BTreeMap<String, Tensor>,
    rope: Tensor,
    epsilon: f32,
}

impl Weights {
    fn get(&self, parameter: &Parameter) -> &Tensor {
        &self.tensors[&format!("{parameter:?}")]
    }

    fn bias(&self, parameter: &Parameter) -> Option<&Tensor> {
        self.tensors.get(&format!("{parameter:?}.bias"))
    }

    fn set(&mut self, parameter: Parameter, tensor: Tensor) {
        self.tensors.insert(format!("{parameter:?}"), tensor);
    }

    fn project(&self, parameter: &Parameter, x: &Tensor) -> Tensor {
        let weight = self.get(parameter);
        let (inputs, outputs) = (weight.dims[0], weight.dims[1]);
        assert_eq!(x.dims[2], inputs);
        let mut data = Vec::with_capacity(x.dims[0] * x.dims[1] * outputs);
        for row in x.data.chunks(inputs) {
            for column in 0..outputs {
                let sum: f32 =
                    (0..inputs).map(|k| row[k] * weight.data[k * outputs + column]).sum();
                data.push(sum + self.bias(parameter).map_or(0.0, |bias| bias.data[column]));
            }
        }
        Tensor::new(&[x.dims[0], x.dims[1], outputs], data)
    }

    fn norm(&self, parameter: &Parameter, x: &Tensor) -> Tensor {
        let gamma = self.get(parameter);
        let width = gamma.data.len();
        let mut data = Vec::with_capacity(x.data.len());
        for row in x.data.chunks(width) {
            let mean: f32 = row.iter().map(|value| value * value).sum::<f32>() / width as f32;
            let scale = 1.0 / (mean + self.epsilon).sqrt();
            data.extend(row.iter().zip(&gamma.data).map(|(value, gain)| value * scale * gain));
        }
        Tensor::new(&x.dims, data)
    }

    /// Rotate the halves of a head against one another.
    fn half_split(&self, x: &Tensor, start: usize) -> Tensor {
        let half = x.dims[3] / 2;
        Tensor::from_fn(&x.dims, |index| {
            let (position, k) = (start + index[2], index[3] % half);
            let cosine = self.rope.at(&[position, 2 * k, 0]);
            let sine = self.rope.at(&[position, 2 * k, 1]);
            let mut other = index.to_vec();
            let turned = if index[3] < half {
                other[3] += half;
                -x.at(&other)
            } else {
                other[3] -= half;
                x.at(&other)
            };
            x.at(index) * cosine + turned * sine
        })
    }

    /// Rotate adjacent pairs.
    fn interleaved(&self, x: &Tensor, start: usize) -> Tensor {
        Tensor::from_fn(&x.dims, |index| {
            let pair = index[3] / 2 * 2;
            let cosine = self.rope.at(&[start + index[2], pair, 0]);
            let sine = self.rope.at(&[start + index[2], pair, 1]);
            let mut other = index.to_vec();
            other[3] = pair + 1 - index[3] % 2;
            let turned = if index[3] == pair { -x.at(&other) } else { x.at(&other) };
            x.at(index) * cosine + turned * sine
        })
    }
}

fn matmul(x: &Tensor, y: &Tensor) -> Tensor {
    let dims = [x.dims[0], x.dims[1], x.dims[2], y.dims[3]];
    Tensor::from_fn(&dims, |index| {
        (0..x.dims[3])
            .map(|k| {
                x.at(&[index[0], index[1], index[2], k]) * y.at(&[index[0], index[1], k, index[3]])
            })
            .sum()
    })
}

/// Attention of queries from `start` on over the first `length` keys.
fn attention(q: &Tensor, k: &Tensor, v: &Tensor, start: usize, length: usize) -> Tensor {
    let groups = q.dims[1] / k.dims[1];
    let scale = 1.0 / (q.dims[3] as f32).sqrt();
    let mut rows: BTreeMap<(usize, usize, usize), Vec<f32>> = BTreeMap::new();
    for b in 0..q.dims[0] {
        for h in 0..q.dims[1] {
            for s in 0..q.dims[2] {
                let scores: Vec<f32> = (0..length.min(start + s + 1))
                    .map(|t| {
                        (0..q.dims[3])
                            .map(|d| q.at(&[b, h, s, d]) * k.at(&[b, h / groups, t, d]))
                            .sum::<f32>()
                            * scale
                    })
                    .collect();
                rows.insert((b, h, s), softmax(&scores));
            }
        }
    }
    Tensor::from_fn(&q.dims, |index| {
        rows[&(index[0], index[1], index[2])]
            .iter()
            .enumerate()
            .map(|(t, share)| share * v.at(&[index[0], index[1] / groups, t, index[3]]))
            .sum()
    })
}

/// What a program is given from outside.
#[derive(Clone, Default)]
struct Inputs {
    tokens: Vec<i32>,
    hidden: Option<Tensor>,
    keys: Vec<Option<Tensor>>,
    values: Vec<Option<Tensor>>,
}

/// The heads of one of the three parts of a packed projection.
fn packed_heads(all: &Tensor, first: usize, heads: usize, width: usize) -> Tensor {
    let dims = [all.dims[0], heads, all.dims[1], width];
    Tensor::from_fn(&dims, |index| {
        all.at(&[index[0], index[2], first + index[1] * width + index[3]])
    })
}

fn written(storage: &Tensor, start: usize, part: &Tensor) -> Tensor {
    Tensor::from_fn(&storage.dims, |index| {
        if index[2] >= start && index[2] < start + part.dims[2] {
            let mut index = index.to_vec();
            index[2] -= start;
            part.at(&index)
        } else {
            storage.at(index)
        }
    })
}

/// The value of every node of a program.
fn run(program: &Program, weights: &Weights, inputs: &Inputs) -> Vec<Tensor> {
    let mut done: Vec<Tensor> = Vec::new();
    for i in 0..program.len() {
        let node = program.node(i);
        let dims = &node.dims;
        let x = |id: &usize| &done[*id];
        let result = match &node.op {
            Op::Tokens => {
                Tensor::new(dims, inputs.tokens.iter().map(|token| *token as f32).collect())
            }
            Op::Hidden => inputs.hidden.clone().unwrap(),
            Op::CachedKey(layer) => inputs.keys[*layer].clone().unwrap(),
            Op::CachedValue(layer) => inputs.values[*layer].clone().unwrap(),
            Op::RotaryTable => weights.rope.clone(),
            Op::CausalMask { start } => Tensor::new(
                dims,
                causal_attention_mask(dims[2], dims[3], *start)
                    .into_iter()
                    .map(f32::from_bits)
                    .collect(),
            ),
            Op::Empty => Tensor::from_fn(dims, |_| f32::NAN),
            Op::Embed(tokens) => {
                let table = weights.get(&Parameter::Embedding);
                Tensor::from_fn(dims, |index| {
                    table.at(&[x(tokens).at(&index[..2]) as usize, index[2]])
                })
            }
            Op::Norm(p, a) | Op::NormKernel(p, a) => weights.norm(p, x(a)),
            Op::Project(p, a) => weights.project(p, x(a)),
            Op::ProjectColumns(p, span, a) => {
                weights.project(p, x(a)).slice(2, span.start, span.end)
            }
            Op::Slice(a, axis, span) => x(a).slice(*axis, span.start, span.end),
            Op::SliceAssign(a, axis, span, b) => {
                assert_eq!(*axis, 2);
                assert_eq!(span.end - span.start, x(b).dims[2]);
                written(x(a), span.start, x(b))
            }
            Op::Reshape(a) => Tensor::new(dims, x(a).data.clone()),
            Op::SwapDims(a, first, second) => Tensor::from_fn(dims, |index| {
                let mut index = index.to_vec();
                index.swap(*first, *second);
                x(a).at(&index)
            }),
            Op::RepeatDim(a, axis, _) => Tensor::from_fn(dims, |index| {
                let mut index = index.to_vec();
                index[*axis] = 0;
                x(a).at(&index)
            }),
            Op::Cat(a, b, axis) => x(a).cat(x(b), *axis),
            Op::Negate(a) => x(a).map(|value| -value),
            Op::Multiply(a, b) => {
                Tensor::from_fn(dims, |index| x(a).at(index) * x(b).spread(index))
            }
            Op::Add(a, b) => Tensor::from_fn(dims, |index| x(a).at(index) + x(b).spread(index)),
            Op::FusedSum(_, a, b) => Tensor::from_fn(dims, |index| x(a).at(index) + x(b).at(index)),
            Op::Silu(a) => x(a).map(silu),
            Op::Matmul(a, b) => matmul(x(a), x(b)),
            Op::ScaleByInverseRoot(a, n) => x(a).map(|value| value / (*n as f32).sqrt()),
            Op::Softmax(a, axis) => {
                assert_eq!(axis + 1, dims.len());
                let rows = x(a).data.chunks(dims[*axis]).flat_map(softmax).collect();
                Tensor::new(dims, rows)
            }
            Op::ToSingle(a) | Op::ToTypeOf(a, _) => x(a).clone(),
            Op::Rotate(a, start) => weights.interleaved(x(a), *start),
            Op::FlashAttention(q, k, v) => attention(x(q), x(k), x(v), 0, x(k).dims[2]),
            Op::FusedNorm(a) => match &program.node(*a).op {
                Op::FusedSum(p, _, _) => weights.norm(p, x(a)),
                _ => panic!("a fused norm follows a fused sum"),
            },
            Op::Swiglu(a) => Tensor::from_fn(dims, |index| {
                let gate = x(a).at(index);
                let up = x(a).at(&[index[0], index[1], index[2] + dims[2]]);
                silu(gate) * up
            }),
            Op::FusedQuery { projected, position, .. } => {
                weights.half_split(&packed_heads(x(projected), 0, dims[1], dims[3]), *position)
            }
            Op::FusedKey(query, storage) => match &program.node(*query).op {
                Op::FusedQuery { projected, position, start, .. } => {
                    let heads = program.node(*query).dims[1];
                    let part = packed_heads(x(projected), heads * dims[3], dims[1], dims[3]);
                    written(x(storage), *start, &weights.half_split(&part, *position))
                }
                _ => panic!("a fused key follows a fused query"),
            },
            Op::FusedValue(query, storage) => match &program.node(*query).op {
                Op::FusedQuery { projected, start, .. } => {
                    let first = (program.node(*query).dims[1] + dims[1]) * dims[3];
                    let part = packed_heads(x(projected), first, dims[1], dims[3]);
                    written(x(storage), *start, &part)
                }
                _ => panic!("a fused value follows a fused query"),
            },
            Op::DecodeAttention(q, k, v, n) => attention(x(q), x(k), x(v), n - 1, *n),
        };
        assert_eq!(&result.dims, dims, "node {i}");
        done.push(result);
    }
    done
}

/// Numbers that look arbitrary but are the same in every run.
struct Numbers(u64);

impl Numbers {
    fn next(&mut self) -> f32 {
        self.0 = self.0.wrapping_mul(6364136223846793005).wrapping_add(1442695040888963407);
        ((self.0 >> 40) as f32 / (1 << 24) as f32) - 0.5
    }

    fn tensor(&mut self, dims: &[usize]) -> Tensor {
        Tensor::from_fn(dims, |_| self.next())
    }
}

fn rope_table(config: &LlamaConfig) -> Tensor {
    let width = config.head_dimension();
    let theta = f32::from_bits(config.rope_theta);
    Tensor::from_fn(&[config.max_sequence_length, width, 2], |index| {
        let pair = (index[1] / 2 * 2) as f32;
        let angle = index[0] as f32 / theta.powf(pair / width as f32);
        if index[2] == 0 { angle.cos() } else { angle.sin() }
    })
}

fn set_linear(weights: &mut Weights, numbers: &mut Numbers, parameter: Parameter, linear: &Linear) {
    weights.set(parameter, numbers.tensor(&[linear.inputs, linear.outputs]));
    if let Some(length) = linear.bias {
        let bias = numbers.tensor(&[length]);
        weights.tensors.insert(format!("{parameter:?}.bias"), bias);
    }
}

/// Weights for a model, and for its packed form.
fn weights_for(config: &LlamaConfig, model: &LlamaForCausalLm) -> Weights {
    let mut numbers = Numbers(11);
    let mut weights = Weights {
        tensors: BTreeMap::new(),
        rope: rope_table(config),
        epsilon: f64::from_bits(config.rms_norm_epsilon) as f32,
    };
    weights.set(Parameter::Embedding, numbers.tensor(&[config.vocab_size, config.d_model]));
    weights.set(Parameter::FinalNorm, numbers.tensor(&[config.d_model]));
    set_linear(&mut weights, &mut numbers, Parameter::Head, &model.lm_head);
    for layer in &model.layers {
        let attention = &layer.self_attn;
        let i = attention.layer;
        weights.set(Parameter::InputNorm(i), numbers.tensor(&[config.d_model]));
        weights.set(Parameter::PostNorm(i), numbers.tensor(&[config.d_model]));
        set_linear(&mut weights, &mut numbers, Parameter::Query(i), &attention.q_proj);
        set_linear(&mut weights, &mut numbers, Parameter::Key(i), &attention.k_proj);
        set_linear(&mut weights, &mut numbers, Parameter::Value(i), &attention.v_proj);
        set_linear(&mut weights, &mut numbers, Parameter::Output(i), &attention.o_proj);
        set_linear(&mut weights, &mut numbers, Parameter::Gate(i), &layer.mlp.gate_proj);
        set_linear(&mut weights, &mut numbers, Parameter::Up(i), &layer.mlp.up_proj);
        set_linear(&mut weights, &mut numbers, Parameter::Down(i), &layer.mlp.down_proj);
        pack(&mut weights, i);
    }
    weights
}

fn pack(weights: &mut Weights, layer: usize) {
    let part = |parameter: Parameter| weights.get(&parameter).clone();
    let qkv = part(Parameter::Query(layer))
        .cat(&part(Parameter::Key(layer)), 1)
        .cat(&part(Parameter::Value(layer)), 1);
    let gate_up = part(Parameter::Gate(layer)).cat(&part(Parameter::Up(layer)), 1);
    let bias = weights.bias(&Parameter::Query(layer)).map(|query| {
        query
            .cat(weights.bias(&Parameter::Key(layer)).unwrap(), 0)
            .cat(weights.bias(&Parameter::Value(layer)).unwrap(), 0)
    });
    weights.set(Parameter::PackedQkv(layer), qkv);
    weights.set(Parameter::PackedGateUp(layer), gate_up);
    if let Some(bias) = bias {
        weights.tensors.insert(format!("{:?}.bias", Parameter::PackedQkv(layer)), bias);
    }
}

fn close(label: &str, actual: &Tensor, expected: &Tensor, tolerance: f32) {
    assert_eq!(actual.dims, expected.dims, "{label}");
    for (index, (a, b)) in actual.data.iter().zip(&expected.data).enumerate() {
        assert!((a - b).abs() < tolerance, "{label}[{index}]: {a} != {b}");
    }
}

fn tiny_config() -> LlamaConfig {
    LlamaConfig {
        vocab_size: 16,
        d_model: 8,
        d_ff: 16,
        num_hidden_layers: 1,
        num_query_heads: 2,
        num_kv_heads: 1,
        max_sequence_length: 8,
        rms_norm_epsilon: 1.0e-6_f64.to_bits(),
        rope_theta: 10_000.0_f32.to_bits(),
    }
}

fn token_program(batch: usize, sequence: usize) -> (Program, usize) {
    let mut program = Program::new();
    let tokens = program.emit(Op::Tokens, vec![batch, sequence]);
    (program, tokens)
}

fn hidden_program(dims: &[usize]) -> (Program, usize) {
    let mut program = Program::new();
    let hidden = program.emit(Op::Hidden, dims.to_vec());
    (program, hidden)
}

#[test]
fn qwen_initialization_has_qkv_biases() {
    let model = LlamaForCausalLm::init_qwen2(&tiny_config()).unwrap();
    let attention = &model.layers[0].self_attn;
    assert!(attention.q_proj.bias.is_some());
    assert!(attention.k_proj.bias.is_some());
    assert!(attention.v_proj.bias.is_some());
    assert!(attention.o_proj.bias.is_none());
    assert_eq!(attention.rotary_layout, RotaryLayout::HalfSplit);
}

#[test]
fn llama_initialization_has_no_biases_and_interleaves() {
    let model = LlamaForCausalLm::init(&tiny_config()).unwrap();
    let attention = &model.layers[0].self_attn;
    assert!(attention.q_proj.bias.is_none());
    assert_eq!(attention.rotary_layout, RotaryLayout::Interleaved);
    assert_eq!(attention.k_proj.outputs, 4);
    assert_eq!(model.lm_head.outputs, 16);
    let mut config = tiny_config();
    config.num_kv_heads = 3;
    assert_eq!(LlamaForCausalLm::init(&config).unwrap_err(), LlamaConfigError::GroupedQueryHeads);
}

#[test]
fn qwen_half_split_rope_matches_reference_equations() {
    let mut config = tiny_config();
    config.max_sequence_length = 4;
    let weights = Weights {
        tensors: BTreeMap::new(),
        rope: rope_table(&config),
        epsilon: 0.0,
    };
    let mut program = Program::new();
    let input = program.emit(Op::CachedKey(0), vec![1, 1, 1, 4]);
    let output = apply_half_split_rope(&mut program, 4, input, 1);
    let inputs = Inputs {
        keys: vec![Some(Tensor::new(&[1, 1, 1, 4], vec![1.0, 2.0, 3.0, 4.0]))],
        ..Default::default()
    };
    let actual = &run(&program, &weights, &inputs)[output].data;
    let cos0 = 1.0_f32.cos();
    let sin0 = 1.0_f32.sin();
    let cos1 = 0.01_f32.cos();
    let sin1 = 0.01_f32.sin();
    let expected = [
        cos0 - 3.0 * sin0,
        2.0 * cos1 - 4.0 * sin1,
        3.0 * cos0 + sin0,
        4.0 * cos1 + 2.0 * sin1,
    ];
    for (actual, expected) in actual.iter().zip(expected) {
        assert!((actual - expected).abs() < 2.0e-3, "{actual} != {expected}");
    }
}

#[test]
fn packed_training_forward_matches_standard_forward() {
    let config = tiny_config();
    let model = LlamaForCausalLm::init_qwen2(&config).unwrap();
    let weights = weights_for(&config, &model);
    let packed = LlamaForCausalLm::init_qwen2(&config).unwrap().into_packed_training();
    let qkv = weights.get(&Parameter::PackedQkv(0));
    close("q weight", weights.get(&Parameter::Query(0)), &qkv.slice(1, 0, 8), 3.0e-3);
    close("k weight", weights.get(&Parameter::Key(0)), &qkv.slice(1, 8, 12), 3.0e-3);
    close("v weight", weights.get(&Parameter::Value(0)), &qkv.slice(1, 12, 16), 3.0e-3);
    let layer = &model.layers[0];
    let packed_layer = &packed.layers[0];
    // Few tokens are projected part by part, many at once.
    for batch in [1, 9] {
        let inputs = Inputs {
            tokens: (0..batch * 4).map(|i| (i * 5 + 1) % 16).map(|i| i as i32).collect(),
            hidden: Some(Numbers(5).tensor(&[batch, 4, 8])),
            ..Default::default()
        };
        let result = |build: &dyn Fn(&mut Program, usize, usize) -> usize| {
            let (mut program, hidden) = hidden_program(&[batch, 4, 8]);
            let mask = program.emit(Op::CausalMask { start: 0 }, vec![1, 1, 4, 4]);
            let output = build(&mut program, hidden, mask);
            run(&program, &weights, &inputs)[output].clone()
        };
        close(
            "attention",
            &result(&|program, x, _| layer.self_attn.forward(program, x)),
            &result(&|program, x, mask| packed_layer.self_attn.forward(program, x, Some(mask))),
            3.0e-3,
        );
        close(
            "fused attention",
            &result(&|program, x, _| layer.self_attn.forward(program, x)),
            &result(&|program, x, _| packed_layer.self_attn.forward(program, x, None)),
            3.0e-3,
        );
        close(
            "mlp",
            &result(&|program, x, _| layer.mlp.forward(program, x)),
            &result(&|program, x, _| packed_layer.mlp.forward(program, x)),
            3.0e-3,
        );
        close(
            "layer",
            &result(&|program, x, _| layer.forward(program, x)),
            &result(&|program, x, mask| packed_layer.forward(program, x, Some(mask))),
            3.0e-3,
        );
        let (mut program, tokens) = token_program(batch, 4);
        let output = model.forward(&mut program, tokens);
        let expected = run(&program, &weights, &inputs)[output].clone();
        let (mut program, tokens) = token_program(batch, 4);
        let output = packed.forward(&mut program, tokens);
        let actual = run(&program, &weights, &inputs)[output].clone();
        assert_eq!(actual.data.len(), expected.data.len());
        close("model", &actual, &expected, 3.0e-3);
    }
}

#[test]
fn long_sequences_need_no_mask() {
    let mut config = tiny_config();
    config.max_sequence_length = 600;
    let packed = LlamaForCausalLm::init(&config).unwrap().into_packed_training();
    let masks = |sequence: usize| {
        let (mut program, tokens) = token_program(1, sequence);
        packed.forward(&mut program, tokens);
        (0..program.len())
            .filter(|i| matches!(program.node(*i).op, Op::CausalMask { .. }))
            .count()
    };
    assert_eq!(masks(511), 1);
    assert_eq!(masks(512), 0);
}

/// A model on the host, with its cache.
struct Cache {
    kv: LlamaKvCache,
    inputs: Inputs,
}

impl Cache {
    fn new(kv: LlamaKvCache) -> Self {
        let layers = kv.layers.len();
        Cache {
            kv,
            inputs: Inputs { keys: vec![None; layers], values: vec![None; layers], ..Default::default() },
        }
    }

    fn pass(
        &mut self,
        weights: &Weights,
        tokens: &[i32],
        build: impl FnOnce(&mut Program, usize, &mut LlamaKvCache) -> ModelPass,
    ) -> Tensor {
        let (mut program, id) = token_program(1, tokens.len());
        self.inputs.tokens = tokens.to_vec();
        let pass = build(&mut program, id, &mut self.kv);
        let values = run(&program, weights, &self.inputs);
        for (layer, stored) in pass.stores.iter().enumerate() {
            self.inputs.keys[layer] = Some(values[stored.key].clone());
            self.inputs.values[layer] = Some(values[stored.value].clone());
        }
        values[pass.output].clone()
    }
}

#[test]
fn cached_passes_give_the_logits_of_a_full_pass() {
    for qwen in [false, true] {
        let mut config = tiny_config();
        config.num_hidden_layers = 2;
        let model = if qwen {
            LlamaForCausalLm::init_qwen2(&config).unwrap()
        } else {
            LlamaForCausalLm::init(&config).unwrap()
        };
        let weights = weights_for(&config, &model);
        let all = [1, 7, 2, 9, 4];
        let (mut program, tokens) = token_program(1, 5);
        let output = model.forward(&mut program, tokens);
        let inputs = Inputs { tokens: all.to_vec(), ..Default::default() };
        let expected = run(&program, &weights, &inputs)[output].clone();
        let mut cache = Cache::new(model.new_cache());
        let mut last = Cache::new(model.new_cache());
        let mut position = 0;
        for part in [&all[..2], &all[2..3], &all[3..]] {
            let logits =
                cache.pass(&weights, part, |program, id, kv| model.forward_cached(program, id, kv));
            let end = position + part.len();
            close("logits", &logits, &expected.slice(1, position, end), 1.0e-3);
            let logits =
                last.pass(&weights, part, |program, id, kv| model.forward_cached_last(program, id, kv));
            close("last", &logits, &expected.slice(1, end - 1, end), 1.0e-3);
            position = end;
            assert_eq!(cache.kv.position(), position);
        }
    }
}

#[test]
fn packed_and_kernel_decoding_match_standard_decoding() {
    for (qwen, heads) in [(true, 2), (false, 2), (true, 1)] {
        let mut config = tiny_config();
        config.max_sequence_length = 140;
        config.num_query_heads = 2;
        config.d_model = 2 * 64 / heads;
        config.num_hidden_layers = 2;
        let init = |config: &LlamaConfig| {
            if qwen {
                LlamaForCausalLm::init_qwen2(config).unwrap()
            } else {
                LlamaForCausalLm::init(config).unwrap()
            }
        };
        let model = init(&config);
        let weights = weights_for(&config, &model);
        let packed = init(&config).into_packed_inference();
        let mut standard = Cache::new(model.new_cache());
        let mut light = Cache::new(packed.new_cache());
        let mut kernel = Cache::new(packed.new_cache());
        let prompt: Vec<i32> = (0..126).map(|i| (i * 7 + 3) % 16).collect();
        let mut parts = vec![prompt];
        parts.extend([vec![5], vec![11], vec![2, 8], vec![1]]);
        for tokens in parts {
            let expected = standard.pass(&weights, &tokens, |program, id, kv| {
                model.forward_cached_last(program, id, kv)
            });
            let actual = light.pass(&weights, &tokens, |program, id, kv| {
                packed.forward_cached_last(program, id, kv)
            });
            close("packed", &actual, &expected, 1.0e-2);
            let actual = kernel.pass(&weights, &tokens, |program, id, kv| {
                packed.forward_cached_last_ruda(program, id, kv)
            });
            close("kernels", &actual, &expected, 1.0e-2);
        }
        assert_eq!(kernel.kv.position(), 131);
        assert_eq!(kernel.kv.layers[0].storage_capacity, 140);
        assert_eq!(kernel.kv.capacity(), 140);
    }
}

#[test]
fn decode_attention_serves_single_positions_of_wide_heads() {
    let mut config = tiny_config();
    config.d_model = 128;
    let packed = LlamaForCausalLm::init_qwen2(&config).unwrap().into_packed_inference();
    let mut kv = packed.new_cache();
    let decodes = |kv: &mut LlamaKvCache, sequence: usize| {
        let (mut program, tokens) = token_program(1, sequence);
        packed.forward_cached_last_ruda(&mut program, tokens, kv);
        (0..program.len())
            .filter(|i| matches!(program.node(*i).op, Op::DecodeAttention(..)))
            .count()
    };
    assert_eq!(decodes(&mut kv, 3), 0);
    assert_eq!(decodes(&mut kv, 1), 1);
}

#[test]
fn storage_doubles_from_its_first_capacity_up_to_the_limit() {
    let mut program = Program::new();
    let mut cache = LlamaLayerCache::new(0, 500);
    let capacity = |cache: &mut LlamaLayerCache, program: &mut Program, added: usize| {
        let reserved = cache.reserve_growable(program, 1, 2, added, 4);
        assert_eq!(reserved.end - reserved.start, added);
        cache.commit_growable(reserved.end);
        cache.storage_capacity
    };
    assert_eq!(capacity(&mut cache, &mut program, 1), 128);
    assert_eq!(capacity(&mut cache, &mut program, 127), 128);
    assert_eq!(capacity(&mut cache, &mut program, 1), 256);
    assert_eq!(capacity(&mut cache, &mut program, 200), 500);
    assert_eq!(cache.sequence_length(), 329);
}

#[test]
fn masks_hide_later_keys() {
    let mask = causal_attention_mask(2, 4, 1);
    let values: Vec<f32> = mask.into_iter().map(f32::from_bits).collect();
    assert_eq!(values, vec![0.0, 0.0, -1.0e30, -1.0e30, 0.0, 0.0, 0.0, -1.0e30]);
}

#[test]
fn configuration_faults_come_in_order() {
    let fault = |change: &dyn Fn(&mut LlamaConfig)| {
        let mut config = tiny_config();
        change(&mut config);
        config.validate().unwrap_err()
    };
    assert_eq!(fault(&|config| config.d_ff = 0), LlamaConfigError::InvalidDimension);
    assert_eq!(fault(&|config| config.num_query_heads = 3), LlamaConfigError::HeadDimension);
    assert_eq!(fault(&|config| config.num_query_heads = 8), LlamaConfigError::RotaryDimension);
    assert_eq!(fault(&|config| config.num_kv_heads = 3), LlamaConfigError::GroupedQueryHeads);
    assert_eq!(
        fault(&|config| config.rms_norm_epsilon = f64::NAN.to_bits()),
        LlamaConfigError::RmsNormEpsilon
    );
    assert_eq!(
        fault(&|config| config.rope_theta = (-1.0_f32).to_bits()),
        LlamaConfigError::RopeTheta
    );
    assert_eq!(
        LlamaConfigError::RopeTheta.to_string(),
        "RoPE theta must be finite and positive"
    );
    assert!(tiny_config().validate().is_ok());
    assert_eq!(tiny_config().head_dimension(), 4);
}

fn no_weights() -> Weights {
    Weights { tensors: BTreeMap::new(), rope: rope_table(&tiny_config()), epsilon: 0.0 }
}

#[test]
fn heads_are_split_shared_and_joined() {
    let mut program = Program::new();
    let input = program.emit(Op::Hidden, vec![1, 2, 6]);
    let heads = split_heads(&mut program, input, 2, 3);
    let shared = repeat_kv(&mut program, heads, 2);
    let back = join_heads(&mut program, heads);
    let features = Tensor::new(&[1, 2, 6], (0..12).map(|value| value as f32).collect());
    let inputs = Inputs { hidden: Some(features.clone()), ..Default::default() };
    let values = run(&program, &no_weights(), &inputs);
    assert_eq!(values[heads].dims, [1, 2, 2, 3]);
    assert_eq!(values[heads].at(&[0, 1, 0, 2]), 5.0);
    assert_eq!(values[shared].dims, [1, 4, 2, 3]);
    for head in 0..4 {
        assert_eq!(values[shared].at(&[0, head, 1, 0]), values[heads].at(&[0, head / 2, 1, 0]));
    }
    assert_eq!(values[back], features);
}

#[test]
fn growing_storage_holds_what_joining_holds() {
    let weights = no_weights();
    let mut joining = LlamaLayerCache::new(0, 300);
    let mut growing = LlamaLayerCache::new(0, 300);
    let mut joined = Inputs { keys: vec![None], values: vec![None], ..Default::default() };
    let mut grown = joined.clone();
    for (step, added) in [2, 126, 1, 100].into_iter().enumerate() {
        let new = Tensor::from_fn(&[1, added, 2], |index| {
            (1000 * step + 2 * index[1] + index[2]) as f32
        });
        let mut program = Program::new();
        let hidden = program.emit(Op::Hidden, vec![1, added, 2]);
        let heads = split_heads(&mut program, hidden, 1, 2);
        let (key, value) = joining.append(&mut program, heads, heads);
        joined.hidden = Some(new.clone());
        let values = run(&program, &weights, &joined);
        joined.keys[0] = Some(values[key].clone());
        joined.values[0] = Some(values[value].clone());
        let mut program = Program::new();
        let hidden = program.emit(Op::Hidden, vec![1, added, 2]);
        let heads = split_heads(&mut program, hidden, 1, 2);
        let (key, value, end) = growing.append_growable(&mut program, heads, heads);
        grown.hidden = Some(new);
        let values = run(&program, &weights, &grown);
        assert_eq!(end, joining.sequence_length());
        assert_eq!(&values[key].slice(2, 0, end), joined.keys[0].as_ref().unwrap());
        assert_eq!(&values[value].slice(2, 0, end), joined.values[0].as_ref().unwrap());
        grown.keys[0] = Some(values[key].clone());
        grown.values[0] = Some(values[value].clone());
    }
    assert_eq!(growing.storage_capacity, 256);
}
