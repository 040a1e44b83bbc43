//! The causal language model with packed projections.

use crate::llama::attention::mask_term;
use crate::llama::cache::{LlamaKvCache, LlamaLayerCache};
use crate::llama::heads::Linear;
use crate::llama::model::{
    embedded, keep_last, last_position, Embedding, LlamaForCausalLm, ModelPass, StoredNodes,
};
use crate::llama::packed::{PackedLlamaAttention, PackedLlamaFeedForward};
use crate::llama::program::{extends, term, NodeModel, Op, Parameter, Program, Term};
use crate::llama::standard::{
    norm_term, residual, sum_term, CachedPass, LlamaDecoderLayer, Projected, RmsNorm,
};
use crate::llama::steps::{added, project_term, same_term};
use vstd::prelude::*;

verus! {

/// From this sequence length on, attention is fused and needs no mask.
pub const FLASH_ATTENTION_MIN_SEQUENCE: usize = 512;

#[derive(Clone, Copy, Debug, PartialEq, Eq, Structural)]
pub struct PackedLlamaDecoderLayer {
    pub self_attn: PackedLlamaAttention,
    pub mlp: PackedLlamaFeedForward,
    pub input_layernorm: RmsNorm,
    pub post_attention_layernorm: RmsNorm,
}

/// Llama/Qwen layout with trainable projection weights packed once after
/// loading. Q/K/V and gate/up each execute as one linear operation instead of
/// launching three and two independent GEMMs for every decoder layer.
#[derive(Debug)]
pub struct PackedLlamaForCausalLm {
    pub embed_tokens: Embedding,
    pub layers: Vec<PackedLlamaDecoderLayer>,
    pub norm: RmsNorm,
    pub lm_head: Linear,
    pub max_sequence_length: usize,
}

impl LlamaDecoderLayer {
    /// The projections of a layer can be packed: they have biases together, of their own lengths,
    /// and the packed widths are counted.
    pub open spec fn packs(&self) -> bool {
        let attention = self.self_attn;
        &&& (attention.num_query_heads + 2 * attention.num_kv_heads) * attention.head_dimension
            <= usize::MAX
        &&& attention.q_proj.bias is Some == attention.k_proj.bias is Some
        &&& attention.q_proj.bias is Some == attention.v_proj.bias is Some
        &&& attention.q_proj.bias matches Some(length) ==> length == attention.q_proj.outputs
        &&& attention.k_proj.bias matches Some(length) ==> length == attention.k_proj.outputs
        &&& attention.v_proj.bias matches Some(length) ==> length == attention.v_proj.outputs
        &&& 2 * self.mlp.gate_proj.outputs <= usize::MAX
    }
}

impl PackedLlamaDecoderLayer {
    /// The parts match one another.
    pub open spec fn wf(&self) -> bool {
        &&& self.self_attn.wf()
        &&& self.mlp.wf()
        &&& self.mlp.layer == self.self_attn.layer
        &&& self.mlp.gate_up.inputs == self.self_attn.qkv.inputs
        &&& self.input_layernorm.width == self.self_attn.qkv.inputs
        &&& self.post_attention_layernorm.width == self.self_attn.qkv.inputs
    }

    /// The packed form of a layer.
    pub open spec fn packing(layer: LlamaDecoderLayer) -> Self {
        PackedLlamaDecoderLayer {
            self_attn: PackedLlamaAttention::packing(layer.self_attn),
            mlp: PackedLlamaFeedForward::packing(layer.mlp),
            input_layernorm: layer.input_layernorm,
            post_attention_layernorm: layer.post_attention_layernorm,
        }
    }

    /// Pack the projections of a layer.
    pub fn from_layer(layer: LlamaDecoderLayer) -> (packed: Self)
        requires
            layer.wf(),
            layer.packs(),
        ensures
            packed.wf(),
            packed == Self::packing(layer),
    {
        PackedLlamaDecoderLayer {
            self_attn: PackedLlamaAttention::from_attention(layer.self_attn),
            mlp: PackedLlamaFeedForward::from_feed_forward(layer.mlp),
            input_layernorm: layer.input_layernorm,
            post_attention_layernorm: layer.post_attention_layernorm,
        }
    }

    /// What attention sees of an input.
    pub open spec fn normalized(&self, input: Term) -> Term {
        norm_term(Parameter::InputNorm(self.self_attn.layer), input)
    }

    /// The output of the layer, given what attention made of its input.
    pub open spec fn completed(&self, input: Term, attention: Term) -> Term {
        let hidden = sum_term(input, attention);
        sum_term(
            hidden,
            self.mlp.result(norm_term(Parameter::PostNorm(self.self_attn.layer), hidden)),
        )
    }

    /// The output of the layer without a cache.
    pub open spec fn result(&self, input: Term, mask: Option<Term>) -> Term {
        self.completed(input, self.self_attn.result(self.normalized(input), mask))
    }

    /// The output of the layer after what a cache holds.
    pub open spec fn cached_result(&self, input: Term, cache: LlamaLayerCache) -> Term {
        self.completed(input, self.self_attn.cached_result(self.normalized(input), cache))
    }

    /// The queries, keys and values of an input.
    pub open spec fn cached_projected(&self, input: Term, cache: LlamaLayerCache) -> Projected {
        let p = self.self_attn.cached_projected(self.normalized(input), cache.sequence_length);
        Projected {
            query: p.query,
            key: cache.appended(Op::CachedKey(self.self_attn.layer), p.key),
            value: cache.appended(Op::CachedValue(self.self_attn.layer), p.value),
        }
    }

    /// What attention sees of an input, by a dedicated kernel.
    pub open spec fn kernel_normalized(&self, input: Term) -> Term {
        same_term(Op::NormKernel(Parameter::InputNorm(self.self_attn.layer), input), input)
    }

    /// The output of the layer by dedicated kernels.
    pub open spec fn kernel_result(&self, input: Term, cache: LlamaLayerCache) -> Term {
        let attention = self.self_attn.kernel_result(self.kernel_normalized(input), cache);
        let hidden = same_term(
            Op::FusedSum(Parameter::PostNorm(self.self_attn.layer), input, attention),
            input,
        );
        sum_term(hidden, self.mlp.kernel_result(same_term(Op::FusedNorm(hidden), hidden)))
    }

    /// The storage that a pass by dedicated kernels wrote to.
    pub open spec fn kernel_projected(&self, input: Term, cache: LlamaLayerCache) -> Projected {
        self.self_attn.kernel_projected(self.kernel_normalized(input), cache)
    }

    fn complete(&self, program: &mut Program, input: usize, attention: usize) -> (id: usize)
        requires
            self.wf(),
            input < old(program)@.len(),
            attention < old(program)@.len(),
            old(program)@[input as int].dims.len() == 3,
            old(program)@[input as int].dims[2] == self.self_attn.qkv.inputs,
            old(program)@[input as int].dims[0] * old(program)@[input as int].dims[1]
                <= usize::MAX,
            old(program)@[attention as int].dims == old(program)@[input as int].dims,
        ensures
            added(
                old(program)@,
                final(program)@,
                id,
                self.completed(
                    term(old(program)@, input as int),
                    term(old(program)@, attention as int),
                ),
            ),
            final(program)@[id as int].dims == old(program)@[input as int].dims,
    {
        let hidden: usize = residual(program, input, attention);
        let normalized: usize = self.post_attention_layernorm.forward(
            program,
            Parameter::PostNorm(self.self_attn.layer),
            hidden,
        );
        let fed: usize = self.mlp.forward(program, normalized);
        residual(program, hidden, fed)
    }

    pub fn forward(&self, program: &mut Program, input: usize, causal_mask: Option<usize>) -> (id:
        usize)
        requires
            self.wf(),
            input < old(program)@.len(),
            self.self_attn.takes(old(program)@[input as int].dims, 0),
            old(program)@[input as int].dims[0] * old(program)@[input as int].dims[1]
                <= usize::MAX,
            causal_mask matches Some(mask) ==> mask < old(program)@.len()
                && old(program)@[mask as int].dims == seq![
                1usize,
                1usize,
                old(program)@[input as int].dims[1],
                old(program)@[input as int].dims[1],
            ],
        ensures
            added(
                old(program)@,
                final(program)@,
                id,
                self.result(
                    term(old(program)@, input as int),
                    match causal_mask {
                        Some(mask) => Some(term(old(program)@, mask as int)),
                        None => None,
                    },
                ),
            ),
            final(program)@[id as int].dims == old(program)@[input as int].dims,
    {
        let normalized: usize = self.input_layernorm.forward(
            program,
            Parameter::InputNorm(self.self_attn.layer),
            input,
        );
        let attention: usize = self.self_attn.forward(program, normalized, causal_mask);
        self.complete(program, input, attention)
    }

    pub fn forward_cached(
        &self,
        program: &mut Program,
        input: usize,
        cache: &mut LlamaLayerCache,
        position: usize,
    ) -> (pass: CachedPass)
        requires
            self.wf(),
            input < old(program)@.len(),
            self.self_attn.takes(old(program)@[input as int].dims, position),
            old(program)@[input as int].dims[0] * old(program)@[input as int].dims[1]
                <= usize::MAX,
            old(cache).wf(),
            old(cache).layer == self.self_attn.layer,
            old(cache).sequence_length == position,
            old(cache).storage_capacity == position,
            old(cache).accepts(self.self_attn.key_dims(old(program)@[input as int].dims)),
        ensures
            ({
                let t = term(old(program)@, input as int);
                let p = self.cached_projected(t, *old(cache));
                &&& final(cache).wf()
                &&& *final(cache) == old(cache).joined(
                    self.self_attn.key_dims(old(program)@[input as int].dims),
                )
                &&& added(
                    old(program)@,
                    final(program)@,
                    pass.output,
                    self.cached_result(t, *old(cache)),
                )
                &&& final(program)@[pass.output as int].dims == old(program)@[input as int].dims
                &&& added(old(program)@, final(program)@, pass.key, p.key)
                &&& added(old(program)@, final(program)@, pass.value, p.value)
            }),
    {
        let normalized: usize = self.input_layernorm.forward(
            program,
            Parameter::InputNorm(self.self_attn.layer),
            input,
        );
        let attention = self.self_attn.forward_cached(program, normalized, cache, position);
        let output: usize = self.complete(program, input, attention.output);
        CachedPass { output, key: attention.key, value: attention.value }
    }

    /// The layer by its dedicated kernels.
    pub fn forward_cached_ruda(
        &self,
        program: &mut Program,
        input: usize,
        cache: &mut LlamaLayerCache,
        position: usize,
    ) -> (pass: CachedPass)
        requires
            self.wf(),
            input < old(program)@.len(),
            self.self_attn.takes(old(program)@[input as int].dims, position),
            old(cache).wf(),
            old(cache).layer == self.self_attn.layer,
            old(cache).sequence_length == position,
            old(cache).has_room(
                self.self_attn.stored_shape(old(program)@[input as int].dims),
                old(program)@[input as int].dims[1],
            ),
        ensures
            ({
                let t = term(old(program)@, input as int);
                let dims = old(program)@[input as int].dims;
                let p = self.kernel_projected(t, *old(cache));
                &&& final(cache).wf()
                &&& *final(cache) == old(cache).grown_by(self.self_attn.stored_shape(dims), dims[1])
                &&& added(
                    old(program)@,
                    final(program)@,
                    pass.output,
                    self.kernel_result(t, *old(cache)),
                )
                &&& final(program)@[pass.output as int].dims == dims
                &&& added(old(program)@, final(program)@, pass.key, p.key)
                &&& added(old(program)@, final(program)@, pass.value, p.value)
            }),
    {
        let normalized: usize = program.same(
            Op::NormKernel(Parameter::InputNorm(self.self_attn.layer), input),
            input,
        );
        let attention = self.self_attn.forward_cached_ruda(program, normalized, cache, position);
        let hidden: usize = program.same(
            Op::FusedSum(Parameter::PostNorm(self.self_attn.layer), input, attention.output),
            input,
        );
        let renormalized: usize = program.same(Op::FusedNorm(hidden), hidden);
        let fed: usize = self.mlp.forward_ruda(program, renormalized);
        let output: usize = residual(program, hidden, fed);
        CachedPass { output, key: attention.key, value: attention.value }
    }
}

/// What the first `n` layers make of an input.
pub open spec fn packed_through(
    layers: Seq<PackedLlamaDecoderLayer>,
    t: Term,
    mask: Option<Term>,
    n: int,
) -> Term
    decreases n,
{
    if n <= 0 {
        t
    } else {
        layers[n - 1].result(packed_through(layers, t, mask, n - 1), mask)
    }
}

/// The mask that a sequence needs.
pub open spec fn mask_for(sequence: usize) -> Option<Term> {
    if sequence < FLASH_ATTENTION_MIN_SEQUENCE {
        Some(mask_term(sequence, sequence, 0))
    } else {
        None
    }
}

/// What the first `n` layers make of an input after what their caches hold.
pub open spec fn packed_cached_through(
    layers: Seq<PackedLlamaDecoderLayer>,
    caches: Seq<LlamaLayerCache>,
    t: Term,
    n: int,
) -> Term
    decreases n,
{
    if n <= 0 {
        t
    } else {
        layers[n - 1].cached_result(packed_cached_through(layers, caches, t, n - 1), caches[n - 1])
    }
}

/// A layer's cache holds the keys and values of an input.
pub open spec fn packed_cached_stored_by(
    nodes: Seq<NodeModel>,
    stored: StoredNodes,
    layer: PackedLlamaDecoderLayer,
    cache: LlamaLayerCache,
    t: Term,
) -> bool {
    let p = layer.cached_projected(t, cache);
    &&& stored.key < nodes.len()
    &&& stored.value < nodes.len()
    &&& term(nodes, stored.key as int) == p.key
    &&& term(nodes, stored.value as int) == p.value
}

/// The caches of the first layers hold what the layers made of an input.
pub open spec fn all_packed_cached_stored(
    nodes: Seq<NodeModel>,
    stores: Seq<StoredNodes>,
    layers: Seq<PackedLlamaDecoderLayer>,
    caches: Seq<LlamaLayerCache>,
    t: Term,
) -> bool {
    forall|i: int|
        0 <= i < stores.len() ==> packed_cached_stored_by(
            nodes,
            #[trigger] stores[i],
            layers[i],
            caches[i],
            packed_cached_through(layers, caches, t, i),
        )
}

/// More nodes do not change what caches hold.
proof fn lemma_all_packed_cached_stored(
    before: Seq<NodeModel>,
    after: Seq<NodeModel>,
    stores: Seq<StoredNodes>,
    layers: Seq<PackedLlamaDecoderLayer>,
    caches: Seq<LlamaLayerCache>,
    t: Term,
)
    requires
        extends(before, after),
        all_packed_cached_stored(before, stores, layers, caches, t),
    ensures
        all_packed_cached_stored(after, stores, layers, caches, t),
{
    assert forall|i: int| 0 <= i < stores.len() implies packed_cached_stored_by(
        after,
        #[trigger] stores[i],
        layers[i],
        caches[i],
        packed_cached_through(layers, caches, t, i),
    ) by {
        assert(packed_cached_stored_by(
            before,
            stores[i],
            layers[i],
            caches[i],
            packed_cached_through(layers, caches, t, i),
        ));
    }
}

/// What the first `n` layers make of an input after what their caches hold, by dedicated kernels.
pub open spec fn kernel_through(
    layers: Seq<PackedLlamaDecoderLayer>,
    caches: Seq<LlamaLayerCache>,
    t: Term,
    n: int,
) -> Term
    decreases n,
{
    if n <= 0 {
        t
    } else {
        layers[n - 1].kernel_result(kernel_through(layers, caches, t, n - 1), caches[n - 1])
    }
}

/// A layer's cache holds the keys and values of an input, by dedicated kernels.
pub open spec fn kernel_stored_by(
    nodes: Seq<NodeModel>,
    stored: StoredNodes,
    layer: PackedLlamaDecoderLayer,
    cache: LlamaLayerCache,
    t: Term,
) -> bool {
    let p = layer.kernel_projected(t, cache);
    &&& stored.key < nodes.len()
    &&& stored.value < nodes.len()
    &&& term(nodes, stored.key as int) == p.key
    &&& term(nodes, stored.value as int) == p.value
}

/// The caches of the first layers hold what the layers made of an input, by dedicated kernels.
pub open spec fn all_kernel_stored(
    nodes: Seq<NodeModel>,
    stores: Seq<StoredNodes>,
    layers: Seq<PackedLlamaDecoderLayer>,
    caches: Seq<LlamaLayerCache>,
    t: Term,
) -> bool {
    forall|i: int|
        0 <= i < stores.len() ==> kernel_stored_by(
            nodes,
            #[trigger] stores[i],
            layers[i],
            caches[i],
            kernel_through(layers, caches, t, i),
        )
}

/// More nodes do not change what caches hold, by dedicated kernels.
proof fn lemma_all_kernel_stored(
    before: Seq<NodeModel>,
    after: Seq<NodeModel>,
    stores: Seq<StoredNodes>,
    layers: Seq<PackedLlamaDecoderLayer>,
    caches: Seq<LlamaLayerCache>,
    t: Term,
)
    requires
        extends(before, after),
        all_kernel_stored(before, stores, layers, caches, t),
    ensures
        all_kernel_stored(after, stores, layers, caches, t),
{
    assert forall|i: int| 0 <= i < stores.len() implies kernel_stored_by(
        after,
        #[trigger] stores[i],
        layers[i],
        caches[i],
        kernel_through(layers, caches, t, i),
    ) by {
        assert(kernel_stored_by(
            before,
            stores[i],
            layers[i],
            caches[i],
            kernel_through(layers, caches, t, i),
        ));
    }
}

impl LlamaForCausalLm {
    /// Consume a loaded model and pack projection weights for low-overhead
    /// inference. Checkpoint loading remains unchanged and therefore retains
    /// exact Hugging Face tensor names and validation.
    pub fn into_packed_inference(self) -> (packed: PackedLlamaForCausalLm)
        requires
            self.wf(),
            forall|i: int| 0 <= i < self.layers@.len() ==> (#[trigger] self.layers@[i]).packs(),
        ensures
            packed.wf(),
            packed.packs_of(self),
    {
        self.into_packed_training()
    }

    /// Consume a loaded model and pack Q/K/V and gate/up into trainable
    /// parameters. The returned module remains fully visible to
    /// autodiff and optimizer traversal while reducing projection launches.
    pub fn into_packed_training(self) -> (packed: PackedLlamaForCausalLm)
        requires
            self.wf(),
            forall|i: int| 0 <= i < self.layers@.len() ==> (#[trigger] self.layers@[i]).packs(),
        ensures
            packed.wf(),
            packed.packs_of(self),
    {
        let mut layers: Vec<PackedLlamaDecoderLayer> = Vec::with_capacity(self.layers.len());
        let mut i: usize = 0;
        while i < self.layers.len()
            invariant
                i <= self.layers@.len(),
                self.wf(),
                forall|k: int| 0 <= k < self.layers@.len() ==> (#[trigger] self.layers@[k]).packs(),
                layers@.len() == i,
                forall|k: int|
                    0 <= k < i ==> (#[trigger] layers@[k]) == PackedLlamaDecoderLayer::packing(
                        self.layers@[k],
                    ) && layers@[k].wf(),
            decreases self.layers@.len() - i,
        {
            assert(self.fitting_layer(self.layers@[i as int], i as int));
            assert(self.layers@[i as int].packs());
            layers.push(PackedLlamaDecoderLayer::from_layer(self.layers[i]));
            i += 1;
        }
        let packed = PackedLlamaForCausalLm {
            embed_tokens: self.embed_tokens,
            layers,
            norm: self.norm,
            lm_head: self.lm_head,
            max_sequence_length: self.max_sequence_length,
        };
        proof {
            assert forall|k: int| 0 <= k < packed.layers@.len() implies packed.fitting_layer(
                #[trigger] packed.layers@[k],
                k,
            ) by {
                assert(self.fitting_layer(self.layers@[k], k));
            }
            assert(packed.layers@ =~= self.layers@.map_values(
                |layer: LlamaDecoderLayer| PackedLlamaDecoderLayer::packing(layer),
            ));
        }
        packed
    }
}

impl PackedLlamaForCausalLm {
    /// The parts match one another.
    pub open spec fn wf(&self) -> bool {
        &&& self.layers@.len() > 0
        &&& self.max_sequence_length > 0
        &&& self.norm.width == self.embed_tokens.width
        &&& self.lm_head.inputs == self.embed_tokens.width
        &&& forall|i: int|
            0 <= i < self.layers@.len() ==> self.fitting_layer(#[trigger] self.layers@[i], i)
    }

    /// A layer is in its place, and takes what the model hands to it.
    pub open spec fn fitting_layer(&self, layer: PackedLlamaDecoderLayer, i: int) -> bool {
        &&& layer.wf()
        &&& layer.self_attn.layer == i
        &&& layer.self_attn.qkv.inputs == self.embed_tokens.width
        &&& layer.self_attn.rope.positions == self.max_sequence_length
    }

    /// The model is the packed form of another.
    pub open spec fn packs_of(&self, model: LlamaForCausalLm) -> bool {
        &&& self.embed_tokens == model.embed_tokens
        &&& self.layers@ == model.layers@.map_values(
            |layer: LlamaDecoderLayer| PackedLlamaDecoderLayer::packing(layer),
        )
        &&& self.norm == model.norm
        &&& self.lm_head == model.lm_head
        &&& self.max_sequence_length == model.max_sequence_length
    }

    pub fn new_cache(&self) -> (cache: LlamaKvCache)
        requires
            self.wf(),
        ensures
            cache.wf(),
            cache.layers@.len() == self.layers@.len(),
            cache.position == 0,
            cache.max_sequence_length == self.max_sequence_length,
            forall|i: int|
                0 <= i < cache.layers@.len() ==> (#[trigger] cache.layers@[i]).stored is None
                    && cache.layers@[i].storage_capacity == 0,
    {
        LlamaKvCache::new(self.layers.len(), self.max_sequence_length)
    }

    /// The logits of hidden states.
    pub open spec fn logits(&self, hidden: Term) -> Term {
        project_term(
            Parameter::Head,
            norm_term(Parameter::FinalNorm, hidden),
            self.lm_head.outputs,
        )
    }

    /// The logits of hidden states, by a dedicated kernel.
    pub open spec fn kernel_logits(&self, hidden: Term) -> Term {
        project_term(
            Parameter::Head,
            same_term(Op::NormKernel(Parameter::FinalNorm, hidden), hidden),
            self.lm_head.outputs,
        )
    }

    /// The logits of tokens, given the mask that their sequence needs.
    pub open spec fn masked_result(&self, tokens: Term, mask: Option<Term>) -> Term {
        self.logits(
            packed_through(
                self.layers@,
                embedded(tokens, self.embed_tokens.width),
                mask,
                self.layers@.len() as int,
            ),
        )
    }

    /// The shape of hidden states.
    pub open spec fn hidden_dims(&self, dims: Seq<usize>) -> Seq<usize> {
        seq![dims[0], dims[1], self.embed_tokens.width]
    }

    /// A cache that can take tokens of a shape.
    pub open spec fn takes(&self, cache: LlamaKvCache, dims: Seq<usize>) -> bool {
        &&& dims.len() == 2
        &&& cache.wf()
        &&& cache.layers@.len() == self.layers@.len()
        &&& cache.position + dims[1] <= cache.max_sequence_length
        &&& cache.position + dims[1] <= self.max_sequence_length
    }

    /// The shape of the keys that a layer makes of tokens.
    pub open spec fn layer_key_dims(&self, i: int, dims: Seq<usize>) -> Seq<usize> {
        self.layers@[i].self_attn.key_dims(self.hidden_dims(dims))
    }

    /// A layer's cache is filled to its end, with keys of the layer's shape.
    pub open spec fn layer_joins(&self, cache: LlamaLayerCache, i: int, dims: Seq<usize>) -> bool {
        &&& cache.storage_capacity == cache.sequence_length
        &&& cache.accepts(self.layer_key_dims(i, dims))
    }

    /// A layer's cache has room for keys of the layer's shape.
    pub open spec fn layer_grows(&self, cache: LlamaLayerCache, i: int, dims: Seq<usize>) -> bool {
        cache.has_room(self.layers@[i].self_attn.stored_shape(self.hidden_dims(dims)), dims[1])
    }

    /// The layers' caches after tokens of a shape were joined to them.
    pub open spec fn joined_layers(&self, caches: Seq<LlamaLayerCache>, dims: Seq<usize>) -> Seq<
        LlamaLayerCache,
    > {
        Seq::new(caches.len(), |i: int| caches[i].joined(self.layer_key_dims(i, dims)))
    }

    /// The layers' caches after tokens of a shape were written into their storage.
    pub open spec fn grown_layers(&self, caches: Seq<LlamaLayerCache>, dims: Seq<usize>) -> Seq<
        LlamaLayerCache,
    > {
        Seq::new(
            caches.len(),
            |i: int|
                caches[i].grown_by(
                    self.layers@[i].self_attn.stored_shape(self.hidden_dims(dims)),
                    dims[1],
                ),
        )
    }

    /// Project hidden states to logits.
    fn project_logits(&self, program: &mut Program, hidden: usize) -> (id: usize)
        requires
            self.wf(),
            hidden < old(program)@.len(),
            old(program)@[hidden as int].dims.len() == 3,
            old(program)@[hidden as int].dims[2] == self.embed_tokens.width,
        ensures
            added(
                old(program)@,
                final(program)@,
                id,
                self.logits(term(old(program)@, hidden as int)),
            ),
            final(program)@[id as int].dims == seq![
                old(program)@[hidden as int].dims[0],
                old(program)@[hidden as int].dims[1],
                self.lm_head.outputs,
            ],
    {
        let normalized: usize = self.norm.forward(program, Parameter::FinalNorm, hidden);
        self.lm_head.forward(program, Parameter::Head, normalized)
    }

    /// Full causal forward for pretraining and fine-tuning.
    pub fn forward(&self, program: &mut Program, tokens: usize) -> (id: usize)
        requires
            self.wf(),
            tokens < old(program)@.len(),
            old(program)@[tokens as int].dims.len() == 2,
            old(program)@[tokens as int].dims[1] <= self.max_sequence_length,
            old(program)@[tokens as int].dims[0] * old(program)@[tokens as int].dims[1]
                <= usize::MAX,
        ensures
            added(
                old(program)@,
                final(program)@,
                id,
                self.masked_result(
                    term(old(program)@, tokens as int),
                    mask_for(old(program)@[tokens as int].dims[1]),
                ),
            ),
            final(program)@[id as int].dims == seq![
                old(program)@[tokens as int].dims[0],
                old(program)@[tokens as int].dims[1],
                self.lm_head.outputs,
            ],
    {
        let ghost start = program@;
        let sequence: usize = program.dim(tokens, 1);
        let ghost dims = self.hidden_dims(start[tokens as int].dims);
        let ghost t = embedded(term(start, tokens as int), self.embed_tokens.width);
        let mut causal_mask: Option<usize> = None;
        if sequence < FLASH_ATTENTION_MIN_SEQUENCE {
            let mask_dims = vec![1, 1, sequence, sequence];
            assert(mask_dims@ =~= seq![1usize, 1usize, sequence, sequence]);
            let mask: usize = program.emit(Op::CausalMask { start: 0 }, mask_dims);
            causal_mask = Some(mask);
        }
        let mut hidden: usize = self.embed_tokens.forward(program, tokens);
        let mut i: usize = 0;
        while i < self.layers.len()
            invariant
                self.wf(),
                i <= self.layers@.len(),
                extends(start, program@),
                hidden < program@.len(),
                dims.len() == 3,
                dims[1] == sequence,
                sequence <= self.max_sequence_length,
                dims[0] * dims[1] <= usize::MAX,
                dims[2] == self.embed_tokens.width,
                program@[hidden as int].dims == dims,
                causal_mask is Some == (sequence < FLASH_ATTENTION_MIN_SEQUENCE),
                causal_mask matches Some(mask) ==> mask < program@.len()
                    && program@[mask as int].dims == seq![1usize, 1usize, sequence, sequence]
                    && Some(term(program@, mask as int)) == mask_for(sequence),
                term(program@, hidden as int) == packed_through(
                    self.layers@,
                    t,
                    mask_for(sequence),
                    i as int,
                ),
            decreases self.layers@.len() - i,
        {
            assert(self.fitting_layer(self.layers@[i as int], i as int));
            hidden = self.layers[i].forward(program, hidden, causal_mask);
            i += 1;
        }
        self.project_logits(program, hidden)
    }

    /// Append tokens to a cache and return their hidden states.
    fn forward_cached_hidden(&self, program: &mut Program, tokens: usize, cache: &mut LlamaKvCache) -> (pass:
        ModelPass)
        requires
            self.wf(),
            tokens < old(program)@.len(),
            self.takes(*old(cache), old(program)@[tokens as int].dims),
            forall|i: int|
                0 <= i < old(cache).layers@.len() ==> self.layer_joins(
                    #[trigger] old(cache).layers@[i],
                    i,
                    old(program)@[tokens as int].dims,
                ),
            old(program)@[tokens as int].dims[0] * old(program)@[tokens as int].dims[1]
                <= usize::MAX,
        ensures
            final(cache).wf(),
            final(cache).position == old(cache).position + old(program)@[tokens as int].dims[1],
            final(cache).max_sequence_length == old(cache).max_sequence_length,
            final(cache).layers@ == self.joined_layers(
                old(cache).layers@,
                old(program)@[tokens as int].dims,
            ),
            added(
                old(program)@,
                final(program)@,
                pass.output,
                packed_cached_through(
                    self.layers@,
                    old(cache).layers@,
                    embedded(term(old(program)@, tokens as int), self.embed_tokens.width),
                    self.layers@.len() as int,
                ),
            ),
            final(program)@[pass.output as int].dims == self.hidden_dims(
                old(program)@[tokens as int].dims,
            ),
            pass.stores@.len() == self.layers@.len(),
            all_packed_cached_stored(
                final(program)@,
                pass.stores@,
                self.layers@,
                old(cache).layers@,
                embedded(term(old(program)@, tokens as int), self.embed_tokens.width),
            ),
    {
        let ghost start = program@;
        let ghost caches = cache.layers@;
        let ghost token_dims = start[tokens as int].dims;
        let ghost t = embedded(term(start, tokens as int), self.embed_tokens.width);
        let ghost dims = self.hidden_dims(token_dims);
        let sequence: usize = program.dim(tokens, 1);
        let position: usize = cache.position;
        let end: usize = position + sequence;
        let mut hidden: usize = self.embed_tokens.forward(program, tokens);
        let mut stores: Vec<StoredNodes> = Vec::with_capacity(self.layers.len());
        let mut i: usize = 0;
        while i < self.layers.len()
            invariant
                self.wf(),
                i <= self.layers@.len(),
                start == old(program)@,
                caches == old(cache).layers@,
                self.takes(*old(cache), token_dims),
                forall|k: int|
                    0 <= k < caches.len() ==> self.layer_joins(
                        #[trigger] caches[k],
                        k,
                        token_dims,
                    ),
                position == old(cache).position,
                cache.position == position,
                cache.max_sequence_length == old(cache).max_sequence_length,
                cache.layers@.len() == caches.len(),
                extends(start, program@),
                hidden < program@.len(),
                dims == self.hidden_dims(token_dims),
                dims[0] * dims[1] <= usize::MAX,
                program@[hidden as int].dims == dims,
                term(program@, hidden as int) == packed_cached_through(self.layers@, caches, t, i as int),
                stores@.len() == i,
                all_packed_cached_stored(program@, stores@, self.layers@, caches, t),
                forall|k: int|
                    0 <= k < i ==> #[trigger] cache.layers@[k] == caches[k].joined(self.layer_key_dims(k, token_dims)) && cache.layers@[k].wf(),
                forall|k: int|
                    i <= k < caches.len() ==> #[trigger] cache.layers@[k] == caches[k],
            decreases self.layers@.len() - i,
        {
            let ghost before = program@;
            assert(self.fitting_layer(self.layers@[i as int], i as int));
            let mut layer_cache = cache.layers[i];
            assert(layer_cache == old(cache).layers@[i as int]);
            assert(self.layer_joins(caches[i as int], i as int, token_dims));
            let pass = self.layers[i].forward_cached(program, hidden, &mut layer_cache, position);
            cache.layers.set(i, layer_cache);
            hidden = pass.output;
            stores.push(StoredNodes { key: pass.key, value: pass.value });
            proof {
                assert forall|k: int| 0 <= k < stores@.len() implies packed_cached_stored_by(
                    program@,
                    #[trigger] stores@[k],
                    self.layers@[k],
                    caches[k],
                    packed_cached_through(self.layers@, caches, t, k),
                ) by {
                    if k < i {
                        assert(packed_cached_stored_by(
                            before,
                            stores@[k],
                            self.layers@[k],
                            caches[k],
                            packed_cached_through(self.layers@, caches, t, k),
                        ));
                    }
                }
            }
            i += 1;
        }
        cache.position = end;
        assert(cache.layers@ =~= self.joined_layers(caches, token_dims));
        ModelPass { output: hidden, stores }
    }

    /// Append tokens to a cache and return their hidden states, by dedicated kernels.
    fn forward_cached_hidden_ruda(&self, program: &mut Program, tokens: usize, cache: &mut LlamaKvCache) -> (pass:
        ModelPass)
        requires
            self.wf(),
            tokens < old(program)@.len(),
            self.takes(*old(cache), old(program)@[tokens as int].dims),
            forall|i: int|
                0 <= i < old(cache).layers@.len() ==> self.layer_grows(
                    #[trigger] old(cache).layers@[i],
                    i,
                    old(program)@[tokens as int].dims,
                ),
        ensures
            final(cache).wf(),
            final(cache).position == old(cache).position + old(program)@[tokens as int].dims[1],
            final(cache).max_sequence_length == old(cache).max_sequence_length,
            final(cache).layers@ == self.grown_layers(
                old(cache).layers@,
                old(program)@[tokens as int].dims,
            ),
            added(
                old(program)@,
                final(program)@,
                pass.output,
                kernel_through(
                    self.layers@,
                    old(cache).layers@,
                    embedded(term(old(program)@, tokens as int), self.embed_tokens.width),
                    self.layers@.len() as int,
                ),
            ),
            final(program)@[pass.output as int].dims == self.hidden_dims(
                old(program)@[tokens as int].dims,
            ),
            pass.stores@.len() == self.layers@.len(),
            all_kernel_stored(
                final(program)@,
                pass.stores@,
                self.layers@,
                old(cache).layers@,
                embedded(term(old(program)@, tokens as int), self.embed_tokens.width),
            ),
    {
        let ghost start = program@;
        let ghost caches = cache.layers@;
        let ghost token_dims = start[tokens as int].dims;
        let ghost t = embedded(term(start, tokens as int), self.embed_tokens.width);
        let ghost dims = self.hidden_dims(token_dims);
        let sequence: usize = program.dim(tokens, 1);
        let position: usize = cache.position;
        let end: usize = position + sequence;
        let mut hidden: usize = self.embed_tokens.forward(program, tokens);
        let mut stores: Vec<StoredNodes> = Vec::with_capacity(self.layers.len());
        let mut i: usize = 0;
        while i < self.layers.len()
            invariant
                self.wf(),
                i <= self.layers@.len(),
                start == old(program)@,
                caches == old(cache).layers@,
                self.takes(*old(cache), token_dims),
                forall|k: int|
                    0 <= k < caches.len() ==> self.layer_grows(
                        #[trigger] caches[k],
                        k,
                        token_dims,
                    ),
                position == old(cache).position,
                cache.position == position,
                cache.max_sequence_length == old(cache).max_sequence_length,
                cache.layers@.len() == caches.len(),
                extends(start, program@),
                hidden < program@.len(),
                dims == self.hidden_dims(token_dims),
                program@[hidden as int].dims == dims,
                term(program@, hidden as int) == kernel_through(self.layers@, caches, t, i as int),
                stores@.len() == i,
                all_kernel_stored(program@, stores@, self.layers@, caches, t),
                forall|k: int|
                    0 <= k < i ==> #[trigger] cache.layers@[k] == caches[k].grown_by(
                        self.layers@[k].self_attn.stored_shape(dims),
                        token_dims[1],
                    ) && cache.layers@[k].wf(),
                forall|k: int|
                    i <= k < caches.len() ==> #[trigger] cache.layers@[k] == caches[k],
            decreases self.layers@.len() - i,
        {
            let ghost before = program@;
            assert(self.fitting_layer(self.layers@[i as int], i as int));
            let mut layer_cache = cache.layers[i];
            assert(layer_cache == old(cache).layers@[i as int]);
            assert(self.layer_grows(caches[i as int], i as int, token_dims));
            let pass = self.layers[i].forward_cached_ruda(program, hidden, &mut layer_cache, position);
            cache.layers.set(i, layer_cache);
            hidden = pass.output;
            stores.push(StoredNodes { key: pass.key, value: pass.value });
            proof {
                assert forall|k: int| 0 <= k < stores@.len() implies kernel_stored_by(
                    program@,
                    #[trigger] stores@[k],
                    self.layers@[k],
                    caches[k],
                    kernel_through(self.layers@, caches, t, k),
                ) by {
                    if k < i {
                        assert(kernel_stored_by(
                            before,
                            stores@[k],
                            self.layers@[k],
                            caches[k],
                            kernel_through(self.layers@, caches, t, k),
                        ));
                    }
                }
            }
            i += 1;
        }
        cache.position = end;
        assert(cache.layers@ =~= self.grown_layers(caches, token_dims));
        ModelPass { output: hidden, stores }
    }

    /// Cached prefill/decode that projects only the final sequence position into logits.
    pub fn forward_cached_last(&self, program: &mut Program, tokens: usize, cache: &mut LlamaKvCache) -> (pass:
        ModelPass)
        requires
            self.wf(),
            tokens < old(program)@.len(),
            self.takes(*old(cache), old(program)@[tokens as int].dims),
            forall|i: int|
                0 <= i < old(cache).layers@.len() ==> self.layer_joins(
                    #[trigger] old(cache).layers@[i],
                    i,
                    old(program)@[tokens as int].dims,
                ),
            old(program)@[tokens as int].dims[0] * old(program)@[tokens as int].dims[1]
                <= usize::MAX,
            old(program)@[tokens as int].dims[1] > 0,
        ensures
            final(cache).wf(),
            final(cache).position == old(cache).position + old(program)@[tokens as int].dims[1],
            final(cache).max_sequence_length == old(cache).max_sequence_length,
            final(cache).layers@ == self.joined_layers(
                old(cache).layers@,
                old(program)@[tokens as int].dims,
            ),
            added(
                old(program)@,
                final(program)@,
                pass.output,
                self.logits(
                    last_position(
                        packed_cached_through(
                            self.layers@,
                            old(cache).layers@,
                            embedded(term(old(program)@, tokens as int), self.embed_tokens.width),
                            self.layers@.len() as int,
                        ),
                    ),
                ),
            ),
            final(program)@[pass.output as int].dims == seq![
                old(program)@[tokens as int].dims[0],
                1usize,
                self.lm_head.outputs,
            ],
            pass.stores@.len() == self.layers@.len(),
            all_packed_cached_stored(
                final(program)@,
                pass.stores@,
                self.layers@,
                old(cache).layers@,
                embedded(term(old(program)@, tokens as int), self.embed_tokens.width),
            ),
    {
        let hidden = self.forward_cached_hidden(program, tokens, cache);
        let ghost before = program@;
        let last: usize = keep_last(program, hidden.output);
        let output: usize = self.project_logits(program, last);
        proof {
            lemma_all_packed_cached_stored(
                before,
                program@,
                hidden.stores@,
                self.layers@,
                old(cache).layers@,
                embedded(term(old(program)@, tokens as int), self.embed_tokens.width),
            );
        }
        ModelPass { output, stores: hidden.stores }
    }

    /// Cached inference using the dedicated RMSNorm and SwiGLU kernels.
    pub fn forward_cached_last_ruda(&self, program: &mut Program, tokens: usize, cache: &mut LlamaKvCache) -> (pass:
        ModelPass)
        requires
            self.wf(),
            tokens < old(program)@.len(),
            self.takes(*old(cache), old(program)@[tokens as int].dims),
            forall|i: int|
                0 <= i < old(cache).layers@.len() ==> self.layer_grows(
                    #[trigger] old(cache).layers@[i],
                    i,
                    old(program)@[tokens as int].dims,
                ),
            old(program)@[tokens as int].dims[1] > 0,
        ensures
            final(cache).wf(),
            final(cache).position == old(cache).position + old(program)@[tokens as int].dims[1],
            final(cache).max_sequence_length == old(cache).max_sequence_length,
            final(cache).layers@ == self.grown_layers(
                old(cache).layers@,
                old(program)@[tokens as int].dims,
            ),
            added(
                old(program)@,
                final(program)@,
                pass.output,
                self.kernel_logits(
                    last_position(
                        kernel_through(
                            self.layers@,
                            old(cache).layers@,
                            embedded(term(old(program)@, tokens as int), self.embed_tokens.width),
                            self.layers@.len() as int,
                        ),
                    ),
                ),
            ),
            final(program)@[pass.output as int].dims == seq![
                old(program)@[tokens as int].dims[0],
                1usize,
                self.lm_head.outputs,
            ],
            pass.stores@.len() == self.layers@.len(),
            all_kernel_stored(
                final(program)@,
                pass.stores@,
                self.layers@,
                old(cache).layers@,
                embedded(term(old(program)@, tokens as int), self.embed_tokens.width),
            ),
    {
        let hidden = self.forward_cached_hidden_ruda(program, tokens, cache);
        let ghost before = program@;
        let last: usize = keep_last(program, hidden.output);
        let normalized: usize = program.same(Op::NormKernel(Parameter::FinalNorm, last), last);
        let output: usize = self.lm_head.forward(program, Parameter::Head, normalized);
        proof {
            lemma_all_kernel_stored(
                before,
                program@,
                hidden.stores@,
                self.layers@,
                old(cache).layers@,
                embedded(term(old(program)@, tokens as int), self.embed_tokens.width),
            );
        }
        ModelPass { output, stores: hidden.stores }
    }
}

} // verus!
