//! The decoder with separate projections.

use crate::llama::attention::{attended, causal_attention, repeat_kv, repeated_heads, RotaryLayout};
use crate::llama::cache::LlamaLayerCache;
use crate::llama::heads::{
    apply_rope, heads_of, join_heads, joined, rotated, split_heads, Linear, RotaryEncoding,
};
use crate::llama::program::{term, Op, Parameter, Program, Term};
use crate::llama::steps::{added, project_term, same_term};
use vstd::prelude::*;

verus! {

#[derive(Clone, Copy, Debug, PartialEq, Eq, Structural)]
pub struct LlamaAttention {
    /// The layer that the attention belongs to.
    pub layer: usize,
    pub q_proj: Linear,
    pub k_proj: Linear,
    pub v_proj: Linear,
    pub o_proj: Linear,
    pub rope: RotaryEncoding,
    pub rotary_layout: RotaryLayout,
    pub num_query_heads: usize,
    pub num_kv_heads: usize,
    pub head_dimension: usize,
}

/// What a pass over a layer leaves: its output, and the keys and values that its cache holds from
/// then on.
#[derive(Clone, Copy, Debug, PartialEq, Eq, Structural)]
pub struct CachedPass {
    pub output: usize,
    pub key: usize,
    pub value: usize,
}

/// Queries, keys and values.
pub struct Projected {
    pub query: Term,
    pub key: Term,
    pub value: Term,
}

/// Heads divide evenly, and have an even width.
pub open spec fn grouped(query_heads: usize, kv_heads: usize, width: usize) -> bool {
    &&& query_heads > 0 && kv_heads > 0 && width > 0
    &&& query_heads % kv_heads == 0
    &&& width % 2 == 0
    &&& query_heads * width <= usize::MAX
}

/// Whole groups of query heads make all of them.
pub proof fn lemma_groups(query_heads: usize, kv_heads: usize, width: usize)
    requires
        grouped(query_heads, kv_heads, width),
    ensures
        kv_heads * (query_heads / kv_heads) == query_heads,
        0 < query_heads / kv_heads,
        kv_heads * width <= query_heads * width,
{
    vstd::arithmetic::div_mod::lemma_fundamental_div_mod(query_heads as int, kv_heads as int);
    let groups = (query_heads / kv_heads) as int;
    assert(groups > 0) by (nonlinear_arith)
        requires
            kv_heads * groups == query_heads,
            query_heads > 0,
            kv_heads > 0,
    ;
    assert(kv_heads * width <= query_heads * width) by (nonlinear_arith)
        requires
            kv_heads * groups == query_heads,
            groups > 0,
            kv_heads > 0,
    ;
}

impl LlamaAttention {
    /// The projections match the heads.
    pub open spec fn wf(&self) -> bool {
        &&& grouped(self.num_query_heads, self.num_kv_heads, self.head_dimension)
        &&& self.q_proj.outputs == self.num_query_heads * self.head_dimension
        &&& self.k_proj.outputs == self.num_kv_heads * self.head_dimension
        &&& self.v_proj.outputs == self.num_kv_heads * self.head_dimension
        &&& self.o_proj.inputs == self.num_query_heads * self.head_dimension
        &&& self.k_proj.inputs == self.q_proj.inputs
        &&& self.v_proj.inputs == self.q_proj.inputs
        &&& self.o_proj.outputs == self.q_proj.inputs
    }

    /// An input that the attention can work on from a position on.
    pub open spec fn takes(&self, dims: Seq<usize>, position: usize) -> bool {
        &&& dims.len() == 3
        &&& dims[2] == self.q_proj.inputs
        &&& position + dims[1] <= self.rope.positions
    }

    /// The shape of the keys of an input.
    pub open spec fn key_dims(&self, dims: Seq<usize>) -> Seq<usize> {
        seq![dims[0], self.num_kv_heads, dims[1], self.head_dimension]
    }

    /// The queries, keys and values of an input.
    pub open spec fn projected(&self, input: Term, position: usize) -> Projected {
        let query = project_term(Parameter::Query(self.layer), input, self.q_proj.outputs);
        let key = project_term(Parameter::Key(self.layer), input, self.k_proj.outputs);
        let value = project_term(Parameter::Value(self.layer), input, self.v_proj.outputs);
        Projected {
            query: rotated(
                self.rotary_layout,
                self.rope,
                heads_of(query, self.num_query_heads, self.head_dimension),
                position,
            ),
            key: rotated(
                self.rotary_layout,
                self.rope,
                heads_of(key, self.num_kv_heads, self.head_dimension),
                position,
            ),
            value: heads_of(value, self.num_kv_heads, self.head_dimension),
        }
    }

    /// The output that queries make of all keys and values.
    pub open spec fn combined(&self, query: Term, key: Term, value: Term, position: usize) -> Term {
        let groups = (self.num_query_heads / self.num_kv_heads) as usize;
        let context = attended(
            query,
            repeated_heads(key, groups),
            repeated_heads(value, groups),
            position,
        );
        project_term(Parameter::Output(self.layer), joined(context), self.o_proj.outputs)
    }

    /// The output of a pass without a cache.
    pub open spec fn result(&self, input: Term) -> Term {
        let p = self.projected(input, 0);
        self.combined(p.query, p.key, p.value, 0)
    }

    /// The output of a pass after what a cache holds.
    pub open spec fn cached_result(&self, input: Term, cache: LlamaLayerCache) -> Term {
        let p = self.projected(input, cache.sequence_length);
        self.combined(
            p.query,
            cache.appended(Op::CachedKey(self.layer), p.key),
            cache.appended(Op::CachedValue(self.layer), p.value),
            cache.sequence_length,
        )
    }

    fn project_part(
        &self,
        program: &mut Program,
        linear: Linear,
        parameter: Parameter,
        heads: usize,
        input: usize,
    ) -> (id: usize)
        requires
            input < old(program)@.len(),
            old(program)@[input as int].dims.len() == 3,
            old(program)@[input as int].dims[2] == linear.inputs,
            linear.outputs == heads * self.head_dimension,
        ensures
            added(
                old(program)@,
                final(program)@,
                id,
                heads_of(
                    project_term(parameter, term(old(program)@, input as int), linear.outputs),
                    heads,
                    self.head_dimension,
                ),
            ),
            final(program)@[id as int].dims == seq![
                old(program)@[input as int].dims[0],
                heads,
                old(program)@[input as int].dims[1],
                self.head_dimension,
            ],
    {
        let flat: usize = linear.forward(program, parameter, input);
        split_heads(program, flat, heads, self.head_dimension)
    }

    /// Project an input to queries, keys and values.
    fn project(&self, program: &mut Program, input: usize, position: usize) -> (ids: (
        usize,
        usize,
        usize,
    ))
        requires
            self.wf(),
            input < old(program)@.len(),
            self.takes(old(program)@[input as int].dims, position),
        ensures
            ({
                let dims = old(program)@[input as int].dims;
                let p = self.projected(term(old(program)@, input as int), position);
                &&& added(old(program)@, final(program)@, ids.0, p.query)
                &&& added(old(program)@, final(program)@, ids.1, p.key)
                &&& added(old(program)@, final(program)@, ids.2, p.value)
                &&& final(program)@[ids.0 as int].dims == seq![
                    dims[0],
                    self.num_query_heads,
                    dims[1],
                    self.head_dimension,
                ]
                &&& final(program)@[ids.1 as int].dims == self.key_dims(dims)
                &&& final(program)@[ids.2 as int].dims == self.key_dims(dims)
            }),
    {
        let query: usize = self.project_part(
            program,
            self.q_proj,
            Parameter::Query(self.layer),
            self.num_query_heads,
            input,
        );
        let key: usize = self.project_part(
            program,
            self.k_proj,
            Parameter::Key(self.layer),
            self.num_kv_heads,
            input,
        );
        let value: usize = self.project_part(
            program,
            self.v_proj,
            Parameter::Value(self.layer),
            self.num_kv_heads,
            input,
        );
        let query: usize = apply_rope(self.rotary_layout, self.rope, program, query, position);
        let key: usize = apply_rope(self.rotary_layout, self.rope, program, key, position);
        (query, key, value)
    }

    /// Attend with queries to all keys and values.
    fn combine(
        &self,
        program: &mut Program,
        query: usize,
        key: usize,
        value: usize,
        position: usize,
    ) -> (id: usize)
        requires
            self.wf(),
            query < old(program)@.len(),
            key < old(program)@.len(),
            value < old(program)@.len(),
            old(program)@[query as int].dims.len() == 4,
            old(program)@[query as int].dims[1] == self.num_query_heads,
            old(program)@[query as int].dims[3] == self.head_dimension,
            old(program)@[key as int].dims == seq![
                old(program)@[query as int].dims[0],
                self.num_kv_heads,
                old(program)@[key as int].dims[2],
                self.head_dimension,
            ],
            old(program)@[value as int].dims == old(program)@[key as int].dims,
            position + old(program)@[query as int].dims[2] <= old(program)@[key as int].dims[2],
        ensures
            added(
                old(program)@,
                final(program)@,
                id,
                self.combined(
                    term(old(program)@, query as int),
                    term(old(program)@, key as int),
                    term(old(program)@, value as int),
                    position,
                ),
            ),
            final(program)@[id as int].dims == seq![
                old(program)@[query as int].dims[0],
                old(program)@[query as int].dims[2],
                self.q_proj.inputs,
            ],
    {
        proof {
            lemma_groups(self.num_query_heads, self.num_kv_heads, self.head_dimension);
        }
        let groups: usize = self.num_query_heads / self.num_kv_heads;
        let key: usize = repeat_kv(program, key, groups);
        let value: usize = repeat_kv(program, value, groups);
        let context: usize = causal_attention(program, query, key, value, position);
        let features: usize = join_heads(program, context);
        self.o_proj.forward(program, Parameter::Output(self.layer), features)
    }

    /// Attend from every position of an input to those up to it.
    pub fn forward(&self, program: &mut Program, input: usize) -> (id: usize)
        requires
            self.wf(),
            input < old(program)@.len(),
            self.takes(old(program)@[input as int].dims, 0),
        ensures
            added(
                old(program)@,
                final(program)@,
                id,
                self.result(term(old(program)@, input as int)),
            ),
            final(program)@[id as int].dims == old(program)@[input as int].dims,
    {
        let (query, key, value) = self.project(program, input, 0);
        let id: usize = self.combine(program, query, key, value, 0);
        assert(program@[id as int].dims =~= old(program)@[input as int].dims);
        id
    }

    /// Attend from every position of an input to those up to it and to those that a cache holds,
    /// which the cache then holds too.
    pub fn forward_cached(
        &self,
        program: &mut Program,
        input: usize,
        cache: &mut LlamaLayerCache,
        position: usize,
    ) -> (pass: CachedPass)
        requires
            self.wf(),
            input < old(program)@.len(),
            self.takes(old(program)@[input as int].dims, position),
            old(cache).wf(),
            old(cache).layer == self.layer,
            old(cache).sequence_length == position,
            old(cache).storage_capacity == position,
            old(cache).accepts(self.key_dims(old(program)@[input as int].dims)),
        ensures
            ({
                let t = term(old(program)@, input as int);
                let p = self.projected(t, position);
                &&& final(cache).wf()
                &&& *final(cache) == old(cache).joined(
                    self.key_dims(old(program)@[input as int].dims),
                )
                &&& added(
                    old(program)@,
                    final(program)@,
                    pass.output,
                    self.cached_result(t, *old(cache)),
                )
                &&& final(program)@[pass.output as int].dims == old(program)@[input as int].dims
                &&& added(
                    old(program)@,
                    final(program)@,
                    pass.key,
                    old(cache).appended(Op::CachedKey(self.layer), p.key),
                )
                &&& added(
                    old(program)@,
                    final(program)@,
                    pass.value,
                    old(cache).appended(Op::CachedValue(self.layer), p.value),
                )
            }),
    {
        let (query, new_key, new_value) = self.project(program, input, position);
        let (key, value) = cache.append(program, new_key, new_value);
        let output: usize = self.combine(program, query, key, value, position);
        assert(program@[output as int].dims =~= old(program)@[input as int].dims);
        CachedPass { output, key, value }
    }
}

/// A root-mean-square norm over features.
#[derive(Clone, Copy, Debug, PartialEq, Eq, Structural)]
pub struct RmsNorm {
    pub width: usize,
    /// The bits of the double-precision epsilon.
    pub epsilon: u64,
}

/// A value after a norm.
pub open spec fn norm_term(parameter: Parameter, t: Term) -> Term {
    same_term(Op::Norm(parameter, t), t)
}

/// The sum of two values of one shape.
pub open spec fn sum_term(x: Term, y: Term) -> Term {
    same_term(Op::Add(x, y), x)
}

impl RmsNorm {
    pub fn forward(&self, program: &mut Program, parameter: Parameter, input: usize) -> (id: usize)
        requires
            input < old(program)@.len(),
            old(program)@[input as int].dims.len() == 3,
            old(program)@[input as int].dims[2] == self.width,
        ensures
            added(
                old(program)@,
                final(program)@,
                id,
                norm_term(parameter, term(old(program)@, input as int)),
            ),
            final(program)@[id as int].dims == old(program)@[input as int].dims,
    {
        program.same(Op::Norm(parameter, input), input)
    }
}

/// Add a value to another of the same shape.
pub fn residual(program: &mut Program, x: usize, y: usize) -> (id: usize)
    requires
        x < old(program)@.len(),
        y < old(program)@.len(),
        old(program)@[x as int].dims == old(program)@[y as int].dims,
    ensures
        added(
            old(program)@,
            final(program)@,
            id,
            sum_term(term(old(program)@, x as int), term(old(program)@, y as int)),
        ),
        final(program)@[id as int].dims == old(program)@[x as int].dims,
{
    program.same(Op::Add(x, y), x)
}

#[derive(Clone, Copy, Debug, PartialEq, Eq, Structural)]
pub struct LlamaFeedForward {
    /// The layer that the feed-forward block belongs to.
    pub layer: usize,
    pub gate_proj: Linear,
    pub up_proj: Linear,
    pub down_proj: Linear,
}

/// The features that a gate lets through.
pub open spec fn gated(gate: Term, up: Term) -> Term {
    same_term(Op::Multiply(same_term(Op::Silu(gate), gate), up), gate)
}

/// Let features through a gate of the same shape.
pub fn apply_gate(program: &mut Program, gate: usize, up: usize) -> (id: usize)
    requires
        gate < old(program)@.len(),
        up < old(program)@.len(),
        old(program)@[gate as int].dims == old(program)@[up as int].dims,
    ensures
        added(
            old(program)@,
            final(program)@,
            id,
            gated(term(old(program)@, gate as int), term(old(program)@, up as int)),
        ),
        final(program)@[id as int].dims == old(program)@[gate as int].dims,
{
    let activated: usize = program.same(Op::Silu(gate), gate);
    program.same(Op::Multiply(activated, up), activated)
}

impl LlamaFeedForward {
    /// The projections match one another.
    pub open spec fn wf(&self) -> bool {
        &&& self.gate_proj.inputs == self.up_proj.inputs == self.down_proj.outputs
        &&& self.gate_proj.outputs == self.up_proj.outputs == self.down_proj.inputs
    }

    /// The output of the block.
    pub open spec fn result(&self, input: Term) -> Term {
        project_term(
            Parameter::Down(self.layer),
            gated(
                project_term(Parameter::Gate(self.layer), input, self.gate_proj.outputs),
                project_term(Parameter::Up(self.layer), input, self.up_proj.outputs),
            ),
            self.down_proj.outputs,
        )
    }

    pub fn forward(&self, program: &mut Program, input: usize) -> (id: usize)
        requires
            self.wf(),
            input < old(program)@.len(),
            old(program)@[input as int].dims.len() == 3,
            old(program)@[input as int].dims[2] == self.gate_proj.inputs,
        ensures
            added(
                old(program)@,
                final(program)@,
                id,
                self.result(term(old(program)@, input as int)),
            ),
            final(program)@[id as int].dims == old(program)@[input as int].dims,
    {
        let gate: usize = self.gate_proj.forward(program, Parameter::Gate(self.layer), input);
        let up: usize = self.up_proj.forward(program, Parameter::Up(self.layer), input);
        let features: usize = apply_gate(program, gate, up);
        let id: usize = self.down_proj.forward(program, Parameter::Down(self.layer), features);
        assert(program@[id as int].dims =~= old(program)@[input as int].dims);
        id
    }
}

#[derive(Clone, Copy, Debug, PartialEq, Eq, Structural)]
pub struct LlamaDecoderLayer {
    pub self_attn: LlamaAttention,
    pub mlp: LlamaFeedForward,
    pub input_layernorm: RmsNorm,
    pub post_attention_layernorm: RmsNorm,
}

impl LlamaDecoderLayer {
    /// The parts match one another.
    pub open spec fn wf(&self) -> bool {
        &&& self.self_attn.wf()
        &&& self.mlp.wf()
        &&& self.mlp.layer == self.self_attn.layer
        &&& self.mlp.gate_proj.inputs == self.self_attn.q_proj.inputs
        &&& self.input_layernorm.width == self.self_attn.q_proj.inputs
        &&& self.post_attention_layernorm.width == self.self_attn.q_proj.inputs
    }

    /// What attention sees of an input.
    pub open spec fn normalized(&self, input: Term) -> Term {
        norm_term(Parameter::InputNorm(self.self_attn.layer), input)
    }

    /// The output of the layer, given what attention made of its input.
    pub open spec fn completed(&self, input: Term, attention: Term) -> Term {
        let hidden = sum_term(input, attention);
        sum_term(
            hidden,
            self.mlp.result(norm_term(Parameter::PostNorm(self.self_attn.layer), hidden)),
        )
    }

    /// The output of the layer without a cache.
    pub open spec fn result(&self, input: Term) -> Term {
        self.completed(input, self.self_attn.result(self.normalized(input)))
    }

    /// The output of the layer after what a cache holds.
    pub open spec fn cached_result(&self, input: Term, cache: LlamaLayerCache) -> Term {
        self.completed(input, self.self_attn.cached_result(self.normalized(input), cache))
    }

    fn complete(&self, program: &mut Program, input: usize, attention: usize) -> (id: usize)
        requires
            self.wf(),
            input < old(program)@.len(),
            attention < old(program)@.len(),
            old(program)@[input as int].dims.len() == 3,
            old(program)@[input as int].dims[2] == self.self_attn.q_proj.inputs,
            old(program)@[attention as int].dims == old(program)@[input as int].dims,
        ensures
            added(
                old(program)@,
                final(program)@,
                id,
                self.completed(
                    term(old(program)@, input as int),
                    term(old(program)@, attention as int),
                ),
            ),
            final(program)@[id as int].dims == old(program)@[input as int].dims,
    {
        let hidden: usize = residual(program, input, attention);
        let normalized: usize = self.post_attention_layernorm.forward(
            program,
            Parameter::PostNorm(self.self_attn.layer),
            hidden,
        );
        let fed: usize = self.mlp.forward(program, normalized);
        residual(program, hidden, fed)
    }

    pub fn forward(&self, program: &mut Program, input: usize) -> (id: usize)
        requires
            self.wf(),
            input < old(program)@.len(),
            self.self_attn.takes(old(program)@[input as int].dims, 0),
        ensures
            added(
                old(program)@,
                final(program)@,
                id,
                self.result(term(old(program)@, input as int)),
            ),
            final(program)@[id as int].dims == old(program)@[input as int].dims,
    {
        let normalized: usize = self.input_layernorm.forward(
            program,
            Parameter::InputNorm(self.self_attn.layer),
            input,
        );
        let attention: usize = self.self_attn.forward(program, normalized);
        self.complete(program, input, attention)
    }

    pub fn forward_cached(
        &self,
        program: &mut Program,
        input: usize,
        cache: &mut LlamaLayerCache,
        position: usize,
    ) -> (pass: CachedPass)
        requires
            self.wf(),
            input < old(program)@.len(),
            self.self_attn.takes(old(program)@[input as int].dims, position),
            old(cache).wf(),
            old(cache).layer == self.self_attn.layer,
            old(cache).sequence_length == position,
            old(cache).storage_capacity == position,
            old(cache).accepts(self.self_attn.key_dims(old(program)@[input as int].dims)),
        ensures
            ({
                let t = term(old(program)@, input as int);
                let p = self.self_attn.projected(self.normalized(t), position);
                &&& final(cache).wf()
                &&& *final(cache) == old(cache).joined(
                    self.self_attn.key_dims(old(program)@[input as int].dims),
                )
                &&& added(
                    old(program)@,
                    final(program)@,
                    pass.output,
                    self.cached_result(t, *old(cache)),
                )
                &&& final(program)@[pass.output as int].dims == old(program)@[input as int].dims
                &&& added(
                    old(program)@,
                    final(program)@,
                    pass.key,
                    old(cache).appended(Op::CachedKey(self.self_attn.layer), p.key),
                )
                &&& added(
                    old(program)@,
                    final(program)@,
                    pass.value,
                    old(cache).appended(Op::CachedValue(self.self_attn.layer), p.value),
                )
            }),
    {
        let normalized: usize = self.input_layernorm.forward(
            program,
            Parameter::InputNorm(self.self_attn.layer),
            input,
        );
        let attention = self.self_attn.forward_cached(program, normalized, cache, position);
        let output: usize = self.complete(program, input, attention.output);
        CachedPass { output, key: attention.key, value: attention.value }
    }
}

} // verus!
