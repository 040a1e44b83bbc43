//! The causal language model: layers between an embedding and a projection to the vocabulary.

use crate::llama::attention::RotaryLayout;
use crate::llama::cache::{dims_of, slice_term, value, LlamaKvCache, LlamaLayerCache};
use crate::llama::heads::{Linear, LinearLayout, RotaryEncoding};
use crate::llama::program::{extends, term, NodeModel, Op, Parameter, Program, Term};
use crate::llama::standard::{
    norm_term, LlamaAttention, LlamaDecoderLayer, LlamaFeedForward, RmsNorm,
};
use crate::llama::steps::{added, project_term};
use crate::llama::{law_heads_cover_the_model, LlamaConfig, LlamaConfigError};
use vstd::prelude::*;

verus! {

/// The shape of a table of token embeddings.
#[derive(Clone, Copy, Debug, PartialEq, Eq, Structural)]
pub struct Embedding {
    pub vocabulary: usize,
    pub width: usize,
}

/// Decoder-only causal language model assembled from native modules.
#[derive(Debug)]
pub struct LlamaForCausalLm {
    pub embed_tokens: Embedding,
    pub layers: Vec<LlamaDecoderLayer>,
    pub norm: RmsNorm,
    pub lm_head: Linear,
    pub max_sequence_length: usize,
}

/// The nodes that a layer's cache holds after a pass.
#[derive(Clone, Copy, Debug, PartialEq, Eq, Structural)]
pub struct StoredNodes {
    pub key: usize,
    pub value: usize,
}

/// What a cached pass leaves: its output, and what each layer's cache holds from then on.
#[derive(Debug)]
pub struct ModelPass {
    pub output: usize,
    pub stores: Vec<StoredNodes>,
}

/// The embeddings of tokens.
pub open spec fn embedded(tokens: Term, width: usize) -> Term {
    value(Op::Embed(tokens), seq![dims_of(tokens)[0], dims_of(tokens)[1], width])
}

/// The last position of a value.
pub open spec fn last_position(t: Term) -> Term {
    slice_term(t, 1, (dims_of(t)[1] - 1) as usize, dims_of(t)[1])
}

/// What the first `n` layers make of an input.
pub open spec fn through(layers: Seq<LlamaDecoderLayer>, t: Term, n: int) -> Term
    decreases n,
{
    if n <= 0 {
        t
    } else {
        layers[n - 1].result(through(layers, t, n - 1))
    }
}

/// What the first `n` layers make of an input after what their caches hold.
pub open spec fn through_cached(
    layers: Seq<LlamaDecoderLayer>,
    caches: Seq<LlamaLayerCache>,
    t: Term,
    n: int,
) -> Term
    decreases n,
{
    if n <= 0 {
        t
    } else {
        layers[n - 1].cached_result(through_cached(layers, caches, t, n - 1), caches[n - 1])
    }
}

/// A layer's cache holds what the layer made of an input, behind what it held.
pub open spec fn stored_by(
    nodes: Seq<NodeModel>,
    stored: StoredNodes,
    layer: LlamaDecoderLayer,
    cache: LlamaLayerCache,
    t: Term,
) -> bool {
    let p = layer.self_attn.projected(layer.normalized(t), cache.sequence_length);
    &&& stored.key < nodes.len()
    &&& stored.value < nodes.len()
    &&& term(nodes, stored.key as int) == cache.appended(
        Op::CachedKey(layer.self_attn.layer),
        p.key,
    )
    &&& term(nodes, stored.value as int) == cache.appended(
        Op::CachedValue(layer.self_attn.layer),
        p.value,
    )
}

/// The caches of the first layers hold what the layers made of an input.
pub open spec fn all_stored(
    nodes: Seq<NodeModel>,
    stores: Seq<StoredNodes>,
    layers: Seq<LlamaDecoderLayer>,
    caches: Seq<LlamaLayerCache>,
    t: Term,
) -> bool {
    forall|i: int|
        0 <= i < stores.len() ==> stored_by(
            nodes,
            #[trigger] stores[i],
            layers[i],
            caches[i],
            through_cached(layers, caches, t, i),
        )
}

impl Embedding {
    pub fn forward(&self, program: &mut Program, tokens: usize) -> (id: usize)
        requires
            tokens < old(program)@.len(),
            old(program)@[tokens as int].dims.len() == 2,
        ensures
            added(
                old(program)@,
                final(program)@,
                id,
                embedded(term(old(program)@, tokens as int), self.width),
            ),
            final(program)@[id as int].dims == seq![
                old(program)@[tokens as int].dims[0],
                old(program)@[tokens as int].dims[1],
                self.width,
            ],
    {
        let dims = vec![program.dim(tokens, 0), program.dim(tokens, 1), self.width];
        assert(dims@ =~= seq![
            program@[tokens as int].dims[0],
            program@[tokens as int].dims[1],
            self.width,
        ]);
        program.emit(Op::Embed(tokens), dims)
    }
}

/// Keep the last position of hidden states.
pub fn keep_last(program: &mut Program, hidden: usize) -> (id: usize)
    requires
        hidden < old(program)@.len(),
        old(program)@[hidden as int].dims.len() == 3,
        old(program)@[hidden as int].dims[1] > 0,
    ensures
        added(old(program)@, final(program)@, id, last_position(term(old(program)@, hidden as int))),
        final(program)@[id as int].dims == seq![
            old(program)@[hidden as int].dims[0],
            1usize,
            old(program)@[hidden as int].dims[2],
        ],
{
    let sequence: usize = program.dim(hidden, 1);
    let id: usize = program.slice(hidden, 1, sequence - 1, sequence);
    assert(program@[id as int].dims =~= seq![
        old(program)@[hidden as int].dims[0],
        1usize,
        old(program)@[hidden as int].dims[2],
    ]);
    id
}

/// The variant of the architecture.
#[derive(Clone, Copy, Debug, PartialEq, Eq, Structural)]
pub struct Variant {
    pub qkv_bias: bool,
    pub rotary_layout: RotaryLayout,
    pub linear_layout: LinearLayout,
}

/// The Llama variant.
pub open spec fn llama_variant() -> Variant {
    Variant {
        qkv_bias: false,
        rotary_layout: RotaryLayout::Interleaved,
        linear_layout: LinearLayout::Row,
    }
}

/// The Qwen2 variant.
pub open spec fn qwen2_variant() -> Variant {
    Variant {
        qkv_bias: true,
        rotary_layout: RotaryLayout::HalfSplit,
        linear_layout: LinearLayout::Col,
    }
}

/// A linear map of a variant.
pub open spec fn linear_of(
    inputs: usize,
    outputs: usize,
    bias: bool,
    variant: Variant,
) -> Linear {
    Linear {
        inputs,
        outputs,
        bias: if bias {
            Some(outputs)
        } else {
            None
        },
        layout: variant.linear_layout,
    }
}

/// A layer of a configuration.
pub open spec fn layer_of(config: LlamaConfig, variant: Variant, layer: usize) -> LlamaDecoderLayer {
    let width = config.heads_width() as usize;
    let kv_width = (config.num_kv_heads * width) as usize;
    let norm = RmsNorm { width: config.d_model, epsilon: config.rms_norm_epsilon };
    LlamaDecoderLayer {
        self_attn: LlamaAttention {
            layer,
            q_proj: linear_of(config.d_model, config.d_model, variant.qkv_bias, variant),
            k_proj: linear_of(config.d_model, kv_width, variant.qkv_bias, variant),
            v_proj: linear_of(config.d_model, kv_width, variant.qkv_bias, variant),
            o_proj: linear_of(config.d_model, config.d_model, false, variant),
            rope: RotaryEncoding { positions: config.max_sequence_length, width },
            rotary_layout: variant.rotary_layout,
            num_query_heads: config.num_query_heads,
            num_kv_heads: config.num_kv_heads,
            head_dimension: width,
        },
        mlp: LlamaFeedForward {
            layer,
            gate_proj: linear_of(config.d_model, config.d_ff, false, variant),
            up_proj: linear_of(config.d_model, config.d_ff, false, variant),
            down_proj: linear_of(config.d_ff, config.d_model, false, variant),
        },
        input_layernorm: norm,
        post_attention_layernorm: norm,
    }
}

fn init_layer(config: &LlamaConfig, variant: Variant, layer: usize) -> (result: LlamaDecoderLayer)
    requires
        config.fault() is None,
    ensures
        result == layer_of(*config, variant, layer),
        result.wf(),
        result.self_attn.layer == layer,
{
    proof {
        law_heads_cover_the_model(*config);
    }
    let width: usize = config.head_dimension();
    let kv_width: usize = config.num_kv_heads * width;
    let d_model: usize = config.d_model;
    let d_ff: usize = config.d_ff;
    let bias: bool = variant.qkv_bias;
    let layout = variant.linear_layout;
    let norm = RmsNorm { width: d_model, epsilon: config.rms_norm_epsilon };
    LlamaDecoderLayer {
        self_attn: LlamaAttention {
            layer,
            q_proj: Linear::init(d_model, d_model, bias, layout),
            k_proj: Linear::init(d_model, kv_width, bias, layout),
            v_proj: Linear::init(d_model, kv_width, bias, layout),
            o_proj: Linear::init(d_model, d_model, false, layout),
            rope: RotaryEncoding { positions: config.max_sequence_length, width },
            rotary_layout: variant.rotary_layout,
            num_query_heads: config.num_query_heads,
            num_kv_heads: config.num_kv_heads,
            head_dimension: width,
        },
        mlp: LlamaFeedForward {
            layer,
            gate_proj: Linear::init(d_model, d_ff, false, layout),
            up_proj: Linear::init(d_model, d_ff, false, layout),
            down_proj: Linear::init(d_ff, d_model, false, layout),
        },
        input_layernorm: norm,
        post_attention_layernorm: norm,
    }
}

impl LlamaForCausalLm {
    /// The parts match one another.
    pub open spec fn wf(&self) -> bool {
        &&& self.layers@.len() > 0
        &&& self.max_sequence_length > 0
        &&& self.norm.width == self.embed_tokens.width
        &&& self.lm_head.inputs == self.embed_tokens.width
        &&& forall|i: int|
            0 <= i < self.layers@.len() ==> self.fitting_layer(#[trigger] self.layers@[i], i)
    }

    /// A layer is in its place, and takes what the model hands to it.
    pub open spec fn fitting_layer(&self, layer: LlamaDecoderLayer, i: int) -> bool {
        &&& layer.wf()
        &&& layer.self_attn.layer == i
        &&& layer.self_attn.q_proj.inputs == self.embed_tokens.width
        &&& layer.self_attn.rope.positions == self.max_sequence_length
    }

    /// The model is of a configuration and a variant.
    pub open spec fn is_of(&self, config: LlamaConfig, variant: Variant) -> bool {
        &&& self.embed_tokens == (Embedding {
            vocabulary: config.vocab_size,
            width: config.d_model,
        })
        &&& self.layers@ == Seq::new(
            config.num_hidden_layers as nat,
            |i: int| layer_of(config, variant, i as usize),
        )
        &&& self.norm == (RmsNorm { width: config.d_model, epsilon: config.rms_norm_epsilon })
        &&& self.lm_head == linear_of(config.d_model, config.vocab_size, false, variant)
        &&& self.max_sequence_length == config.max_sequence_length
    }

    pub fn init(config: &LlamaConfig) -> (result: Result<Self, LlamaConfigError>)
        ensures
            match result {
                Ok(model) => config.fault() is None && model.wf() && model.is_of(
                    *config,
                    llama_variant(),
                ),
                Err(error) => config.fault() == Some(error),
            },
    {
        Self::init_with_variant(
            config,
            Variant {
                qkv_bias: false,
                rotary_layout: RotaryLayout::Interleaved,
                linear_layout: LinearLayout::Row,
            },
        )
    }

    /// Initialize the Qwen2/Qwen2.5 decoder variant. It shares the
    /// RMSNorm/SwiGLU/GQA skeleton with Llama, while retaining Qwen's Q/K/V
    /// biases and half-split rotary layout.
    pub fn init_qwen2(config: &LlamaConfig) -> (result: Result<Self, LlamaConfigError>)
        ensures
            match result {
                Ok(model) => config.fault() is None && model.wf() && model.is_of(
                    *config,
                    qwen2_variant(),
                ),
                Err(error) => config.fault() == Some(error),
            },
    {
        Self::init_with_variant(
            config,
            Variant {
                qkv_bias: true,
                rotary_layout: RotaryLayout::HalfSplit,
                linear_layout: LinearLayout::Col,
            },
        )
    }

    fn init_with_variant(config: &LlamaConfig, variant: Variant) -> (result: Result<
        Self,
        LlamaConfigError,
    >)
        ensures
            match result {
                Ok(model) => config.fault() is None && model.wf() && model.is_of(*config, variant),
                Err(error) => config.fault() == Some(error),
            },
    {
        match config.validate() {
            Ok(_) => {},
            Err(error) => {
                return Err(error);
            },
        }
        let mut layers: Vec<LlamaDecoderLayer> = Vec::with_capacity(config.num_hidden_layers);
        let mut i: usize = 0;
        while i < config.num_hidden_layers
            invariant
                i <= config.num_hidden_layers,
                config.fault() is None,
                layers@.len() == i,
                forall|k: int|
                    0 <= k < i ==> #[trigger] layers@[k] == layer_of(*config, variant, k as usize)
                        && layers@[k].wf() && layers@[k].self_attn.layer == k,
            decreases config.num_hidden_layers - i,
        {
            layers.push(init_layer(config, variant, i));
            i += 1;
        }
        let model = LlamaForCausalLm {
            embed_tokens: Embedding { vocabulary: config.vocab_size, width: config.d_model },
            layers,
            norm: RmsNorm { width: config.d_model, epsilon: config.rms_norm_epsilon },
            lm_head: Linear::init(config.d_model, config.vocab_size, false, variant.linear_layout),
            max_sequence_length: config.max_sequence_length,
        };
        assert(model.layers@ =~= Seq::new(
            config.num_hidden_layers as nat,
            |k: int| layer_of(*config, variant, k as usize),
        ));
        Ok(model)
    }

    pub fn new_cache(&self) -> (cache: LlamaKvCache)
        requires
            self.wf(),
        ensures
            cache.wf(),
            cache.layers@.len() == self.layers@.len(),
            cache.position == 0,
            cache.max_sequence_length == self.max_sequence_length,
            forall|i: int|
                0 <= i < cache.layers@.len() ==> (#[trigger] cache.layers@[i]).stored is None
                    && cache.layers@[i].storage_capacity == 0,
    {
        LlamaKvCache::new(self.layers.len(), self.max_sequence_length)
    }

    /// The logits of hidden states.
    pub open spec fn logits(&self, hidden: Term) -> Term {
        project_term(
            Parameter::Head,
            norm_term(Parameter::FinalNorm, hidden),
            self.lm_head.outputs,
        )
    }

    /// The logits of tokens.
    pub open spec fn result(&self, tokens: Term) -> Term {
        self.logits(
            through(
                self.layers@,
                embedded(tokens, self.embed_tokens.width),
                self.layers@.len() as int,
            ),
        )
    }

    /// The hidden states of tokens after what a cache holds.
    pub open spec fn cached_hidden(&self, tokens: Term, caches: Seq<LlamaLayerCache>) -> Term {
        through_cached(
            self.layers@,
            caches,
            embedded(tokens, self.embed_tokens.width),
            self.layers@.len() as int,
        )
    }

    /// A cache that can take tokens of a shape.
    pub open spec fn takes(&self, cache: LlamaKvCache, dims: Seq<usize>) -> bool {
        &&& dims.len() == 2
        &&& cache.wf()
        &&& cache.layers@.len() == self.layers@.len()
        &&& cache.position + dims[1] <= cache.max_sequence_length
        &&& cache.position + dims[1] <= self.max_sequence_length
        &&& forall|i: int|
            0 <= i < cache.layers@.len() ==> self.layer_takes(#[trigger] cache.layers@[i], i, dims)
    }

    /// A layer's cache is filled to its end, with keys of the layer's shape.
    pub open spec fn layer_takes(&self, cache: LlamaLayerCache, i: int, dims: Seq<usize>) -> bool {
        &&& cache.storage_capacity == cache.sequence_length
        &&& cache.accepts(self.layer_key_dims(i, dims))
    }

    /// The shape of the keys that a layer makes of tokens.
    pub open spec fn layer_key_dims(&self, i: int, dims: Seq<usize>) -> Seq<usize> {
        self.layers@[i].self_attn.key_dims(seq![dims[0], dims[1], self.embed_tokens.width])
    }

    /// A cache after tokens of a shape.
    pub open spec fn advanced(
        &self,
        before: LlamaKvCache,
        after: LlamaKvCache,
        dims: Seq<usize>,
    ) -> bool {
        &&& after.wf()
        &&& after.position == before.position + dims[1]
        &&& after.max_sequence_length == before.max_sequence_length
        &&& after.layers@ == Seq::new(
            before.layers@.len(),
            |i: int| before.layers@[i].joined(self.layer_key_dims(i, dims)),
        )
    }

    /// Project hidden states to logits.
    fn project_logits(&self, program: &mut Program, hidden: usize) -> (id: usize)
        requires
            self.wf(),
            hidden < old(program)@.len(),
            old(program)@[hidden as int].dims.len() == 3,
            old(program)@[hidden as int].dims[2] == self.embed_tokens.width,
        ensures
            added(
                old(program)@,
                final(program)@,
                id,
                self.logits(term(old(program)@, hidden as int)),
            ),
            final(program)@[id as int].dims == seq![
                old(program)@[hidden as int].dims[0],
                old(program)@[hidden as int].dims[1],
                self.lm_head.outputs,
            ],
    {
        let normalized: usize = self.norm.forward(program, Parameter::FinalNorm, hidden);
        self.lm_head.forward(program, Parameter::Head, normalized)
    }

    /// Full causal prefill. Returns logits in `[batch, sequence, vocabulary]` order.
    pub fn forward(&self, program: &mut Program, tokens: usize) -> (id: usize)
        requires
            self.wf(),
            tokens < old(program)@.len(),
            old(program)@[tokens as int].dims.len() == 2,
            old(program)@[tokens as int].dims[1] <= self.max_sequence_length,
        ensures
            added(
                old(program)@,
                final(program)@,
                id,
                self.result(term(old(program)@, tokens as int)),
            ),
            final(program)@[id as int].dims == seq![
                old(program)@[tokens as int].dims[0],
                old(program)@[tokens as int].dims[1],
                self.lm_head.outputs,
            ],
    {
        let ghost start = program@;
        let ghost t = embedded(term(start, tokens as int), self.embed_tokens.width);
        let ghost dims = seq![
            start[tokens as int].dims[0],
            start[tokens as int].dims[1],
            self.embed_tokens.width,
        ];
        let mut hidden: usize = self.embed_tokens.forward(program, tokens);
        let mut i: usize = 0;
        while i < self.layers.len()
            invariant
                self.wf(),
                i <= self.layers@.len(),
                extends(start, program@),
                hidden < program@.len(),
                dims.len() == 3,
                dims[1] <= self.max_sequence_length,
                dims[2] == self.embed_tokens.width,
                program@[hidden as int].dims == dims,
                term(program@, hidden as int) == through(self.layers@, t, i as int),
            decreases self.layers@.len() - i,
        {
            assert(self.fitting_layer(self.layers@[i as int], i as int));
            hidden = self.layers[i].forward(program, hidden);
            i += 1;
        }
        self.project_logits(program, hidden)
    }

    fn forward_cached_hidden(
        &self,
        program: &mut Program,
        tokens: usize,
        cache: &mut LlamaKvCache,
    ) -> (pass: ModelPass)
        requires
            self.wf(),
            tokens < old(program)@.len(),
            self.takes(*old(cache), old(program)@[tokens as int].dims),
        ensures
            self.advanced(*old(cache), *final(cache), old(program)@[tokens as int].dims),
            added(
                old(program)@,
                final(program)@,
                pass.output,
                self.cached_hidden(term(old(program)@, tokens as int), old(cache).layers@),
            ),
            final(program)@[pass.output as int].dims == seq![
                old(program)@[tokens as int].dims[0],
                old(program)@[tokens as int].dims[1],
                self.embed_tokens.width,
            ],
            pass.stores@.len() == self.layers@.len(),
            all_stored(
                final(program)@,
                pass.stores@,
                self.layers@,
                old(cache).layers@,
                embedded(term(old(program)@, tokens as int), self.embed_tokens.width),
            ),
    {
        let ghost start = program@;
        let ghost caches = cache.layers@;
        let ghost token_dims = start[tokens as int].dims;
        let ghost t = embedded(term(start, tokens as int), self.embed_tokens.width);
        let ghost dims = seq![token_dims[0], token_dims[1], self.embed_tokens.width];
        let sequence: usize = program.dim(tokens, 1);
        let position: usize = cache.position;
        let end: usize = position + sequence;
        let mut hidden: usize = self.embed_tokens.forward(program, tokens);
        let mut stores: Vec<StoredNodes> = Vec::with_capacity(self.layers.len());
        let mut i: usize = 0;
        while i < self.layers.len()
            invariant
                self.wf(),
                i <= self.layers@.len(),
                start == old(program)@,
                caches == old(cache).layers@,
                self.takes(*old(cache), token_dims),
                position == old(cache).position,
                cache.position == position,
                cache.max_sequence_length == old(cache).max_sequence_length,
                cache.layers@.len() == caches.len(),
                extends(start, program@),
                hidden < program@.len(),
                dims == seq![token_dims[0], token_dims[1], self.embed_tokens.width],
                program@[hidden as int].dims == dims,
                term(program@, hidden as int) == through_cached(self.layers@, caches, t, i as int),
                stores@.len() == i,
                all_stored(program@, stores@, self.layers@, caches, t),
                forall|k: int|
                    0 <= k < i ==> #[trigger] cache.layers@[k] == caches[k].joined(
                        self.layer_key_dims(k, token_dims),
                    ) && cache.layers@[k].wf(),
                forall|k: int|
                    i <= k < caches.len() ==> #[trigger] cache.layers@[k] == caches[k],
            decreases self.layers@.len() - i,
        {
            let ghost before = program@;
            assert(self.fitting_layer(self.layers@[i as int], i as int));
            let mut layer_cache = cache.layers[i];
            assert(layer_cache == old(cache).layers@[i as int]);
            assert(self.layer_takes(old(cache).layers@[i as int], i as int, token_dims));
            let pass = self.layers[i].forward_cached(program, hidden, &mut layer_cache, position);
            cache.layers.set(i, layer_cache);
            hidden = pass.output;
            stores.push(StoredNodes { key: pass.key, value: pass.value });
            proof {
                assert forall|k: int| 0 <= k < stores@.len() implies stored_by(
                    program@,
                    #[trigger] stores@[k],
                    self.layers@[k],
                    caches[k],
                    through_cached(self.layers@, caches, t, k),
                ) by {
                    if k < i {
                        assert(stored_by(
                            before,
                            stores@[k],
                            self.layers@[k],
                            caches[k],
                            through_cached(self.layers@, caches, t, k),
                        ));
                    }
                }
            }
            i += 1;
        }
        cache.position = end;
        proof {
            assert(cache.layers@ =~= Seq::new(
                caches.len(),
                |k: int| caches[k].joined(self.layer_key_dims(k, token_dims)),
            ));
        }
        ModelPass { output: hidden, stores }
    }

    /// Appends one or more tokens to a KV cache and returns logits for only those tokens.
    pub fn forward_cached(
        &self,
        program: &mut Program,
        tokens: usize,
        cache: &mut LlamaKvCache,
    ) -> (pass: ModelPass)
        requires
            self.wf(),
            tokens < old(program)@.len(),
            self.takes(*old(cache), old(program)@[tokens as int].dims),
        ensures
            self.advanced(*old(cache), *final(cache), old(program)@[tokens as int].dims),
            added(
                old(program)@,
                final(program)@,
                pass.output,
                self.logits(
                    self.cached_hidden(term(old(program)@, tokens as int), old(cache).layers@),
                ),
            ),
            final(program)@[pass.output as int].dims == seq![
                old(program)@[tokens as int].dims[0],
                old(program)@[tokens as int].dims[1],
                self.lm_head.outputs,
            ],
            pass.stores@.len() == self.layers@.len(),
            all_stored(
                final(program)@,
                pass.stores@,
                self.layers@,
                old(cache).layers@,
                embedded(term(old(program)@, tokens as int), self.embed_tokens.width),
            ),
    {
        let hidden = self.forward_cached_hidden(program, tokens, cache);
        let ghost before = program@;
        let output: usize = self.project_logits(program, hidden.output);
        proof {
            lemma_all_stored(
                before,
                program@,
                hidden.stores@,
                self.layers@,
                old(cache).layers@,
                embedded(term(old(program)@, tokens as int), self.embed_tokens.width),
            );
        }
        ModelPass { output, stores: hidden.stores }
    }

    /// Cached prefill/decode that projects only the final sequence position
    /// into vocabulary logits. Autoregressive generation never consumes the
    /// earlier prompt logits, so this avoids a large redundant LM-head GEMM.
    pub fn forward_cached_last(
        &self,
        program: &mut Program,
        tokens: usize,
        cache: &mut LlamaKvCache,
    ) -> (pass: ModelPass)
        requires
            self.wf(),
            tokens < old(program)@.len(),
            self.takes(*old(cache), old(program)@[tokens as int].dims),
            old(program)@[tokens as int].dims[1] > 0,
        ensures
            self.advanced(*old(cache), *final(cache), old(program)@[tokens as int].dims),
            added(
                old(program)@,
                final(program)@,
                pass.output,
                self.logits(
                    last_position(
                        self.cached_hidden(term(old(program)@, tokens as int), old(cache).layers@),
                    ),
                ),
            ),
            final(program)@[pass.output as int].dims == seq![
                old(program)@[tokens as int].dims[0],
                1usize,
                self.lm_head.outputs,
            ],
            pass.stores@.len() == self.layers@.len(),
            all_stored(
                final(program)@,
                pass.stores@,
                self.layers@,
                old(cache).layers@,
                embedded(term(old(program)@, tokens as int), self.embed_tokens.width),
            ),
    {
        let hidden = self.forward_cached_hidden(program, tokens, cache);
        let ghost before = program@;
        let last: usize = keep_last(program, hidden.output);
        let output: usize = self.project_logits(program, last);
        proof {
            lemma_all_stored(
                before,
                program@,
                hidden.stores@,
                self.layers@,
                old(cache).layers@,
                embedded(term(old(program)@, tokens as int), self.embed_tokens.width),
            );
        }
        ModelPass { output, stores: hidden.stores }
    }
}

/// More nodes do not change what caches hold.
proof fn lemma_all_stored(
    before: Seq<NodeModel>,
    after: Seq<NodeModel>,
    stores: Seq<StoredNodes>,
    layers: Seq<LlamaDecoderLayer>,
    caches: Seq<LlamaLayerCache>,
    t: Term,
)
    requires
        extends(before, after),
        all_stored(before, stores, layers, caches, t),
    ensures
        all_stored(after, stores, layers, caches, t),
{
    assert forall|i: int| 0 <= i < stores.len() implies stored_by(
        after,
        #[trigger] stores[i],
        layers[i],
        caches[i],
        through_cached(layers, caches, t, i),
    ) by {
        assert(stored_by(
            before,
            stores[i],
            layers[i],
            caches[i],
            through_cached(layers, caches, t, i),
        ));
    }
}

/// A model has the dimensions of its configuration: as many layers as it says, in order, each with
/// queries as wide as the model, keys and values as wide as their heads, and a feed-forward block as
/// wide as it says; norms over the width of the model with its epsilon; a rotary table for as many
/// positions as a sequence can have, as wide as a head; and a table of embeddings and a head for the
/// vocabulary.
pub proof fn law_models_have_their_configured_dimensions(
    config: LlamaConfig,
    variant: Variant,
    model: LlamaForCausalLm,
    i: int,
)
    requires
        config.fault() is None,
        model.is_of(config, variant),
        0 <= i < config.num_hidden_layers,
    ensures
        ({
            let d = config.d_model;
            let width = d as int / config.num_query_heads as int;
            let kv = config.num_kv_heads * width;
            let layer = model.layers@[i];
            let a = layer.self_attn;
            let m = layer.mlp;
            &&& model.layers@.len() == config.num_hidden_layers
            &&& a.layer == i && m.layer == i
            &&& a.q_proj.inputs == d && a.q_proj.outputs == d
            &&& a.k_proj.inputs == d && a.k_proj.outputs == kv
            &&& a.v_proj.inputs == d && a.v_proj.outputs == kv
            &&& a.o_proj.inputs == d && a.o_proj.outputs == d
            &&& a.num_query_heads == config.num_query_heads
            &&& a.num_kv_heads == config.num_kv_heads
            &&& a.head_dimension == width
            &&& a.rope.positions == config.max_sequence_length && a.rope.width == width
            &&& m.gate_proj.inputs == d && m.gate_proj.outputs == config.d_ff
            &&& m.up_proj.inputs == d && m.up_proj.outputs == config.d_ff
            &&& m.down_proj.inputs == config.d_ff && m.down_proj.outputs == d
            &&& layer.input_layernorm.width == d
            &&& layer.input_layernorm.epsilon == config.rms_norm_epsilon
            &&& layer.post_attention_layernorm.width == d
            &&& layer.post_attention_layernorm.epsilon == config.rms_norm_epsilon
            &&& model.norm.width == d && model.norm.epsilon == config.rms_norm_epsilon
            &&& model.embed_tokens.vocabulary == config.vocab_size && model.embed_tokens.width == d
            &&& model.lm_head.inputs == d && model.lm_head.outputs == config.vocab_size
            &&& model.max_sequence_length == config.max_sequence_length
        }),
{
    law_heads_cover_the_model(config);
}

} // verus!
