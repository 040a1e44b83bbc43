//! The decoder with packed projections: Q/K/V and gate/up each execute as one linear operation
//! instead of three and two independent ones for every decoder layer.

use crate::llama::attention::{
    attended, causal_attention, causal_attention_with_mask, masked_attention, repeat_kv,
    repeated_heads, RotaryLayout,
};
use crate::llama::cache::{dims_of, slice_term, value, LlamaLayerCache, StoredShape};
use crate::llama::heads::{
    apply_rope, heads_of, join_heads, joined, merge_heads, merged, rotated, split_heads, Linear,
    LinearLayout, RotaryEncoding,
};
use crate::llama::program::{term, within, Op, Parameter, Program, Span, Term};
use crate::llama::standard::{
    apply_gate, gated, grouped, lemma_groups, CachedPass, LlamaAttention, LlamaFeedForward,
    Projected,
};
use crate::llama::steps::{added, project_term, same_term};
use vstd::prelude::*;

verus! {

/// From this many tokens on, packed projections execute as one operation.
pub const PACKED_TRAINING_MIN_TOKENS: usize = 32;

#[derive(Clone, Copy, Debug, PartialEq, Eq, Structural)]
pub struct PackedLlamaAttention {
    /// The layer that the attention belongs to.
    pub layer: usize,
    /// Columns for queries, then keys, then values.
    pub qkv: Linear,
    pub o_proj: Linear,
    pub rope: RotaryEncoding,
    pub rotary_layout: RotaryLayout,
    pub num_query_heads: usize,
    pub num_kv_heads: usize,
    pub head_dimension: usize,
}

/// Some of the columns of a packed projection, on their own.
pub open spec fn columns_term(parameter: Parameter, span: Span, t: Term) -> Term {
    value(
        Op::ProjectColumns(parameter, span, t),
        seq![dims_of(t)[0], dims_of(t)[1], (span.end - span.start) as usize],
    )
}

/// Some of the features of a value.
pub open spec fn features_term(t: Term, span: Span) -> Term {
    slice_term(t, 2, span.start, span.end)
}

/// Some of the columns of a packed projection: on their own for a few tokens, else out of all.
pub open spec fn part_term(parameter: Parameter, span: Span, t: Term, outputs: usize) -> Term {
    if dims_of(t)[0] * dims_of(t)[1] < PACKED_TRAINING_MIN_TOKENS {
        columns_term(parameter, span, t)
    } else {
        features_term(project_term(parameter, t, outputs), span)
    }
}

/// Take some of the columns of a packed projection.
fn project_columns(program: &mut Program, parameter: Parameter, span: Span, input: usize) -> (id:
    usize)
    requires
        input < old(program)@.len(),
        old(program)@[input as int].dims.len() == 3,
        span.start <= span.end,
    ensures
        added(
            old(program)@,
            final(program)@,
            id,
            columns_term(parameter, span, term(old(program)@, input as int)),
        ),
        final(program)@[id as int].dims == seq![
            old(program)@[input as int].dims[0],
            old(program)@[input as int].dims[1],
            (span.end - span.start) as usize,
        ],
{
    let width: usize = span.end - span.start;
    let dims = vec![program.dim(input, 0), program.dim(input, 1), width];
    assert(dims@ =~= seq![
        program@[input as int].dims[0],
        program@[input as int].dims[1],
        (span.end - span.start) as usize,
    ]);
    program.emit(Op::ProjectColumns(parameter, span, input), dims)
}

/// Take some of the features of a value.
fn take_features(program: &mut Program, input: usize, span: Span) -> (id: usize)
    requires
        input < old(program)@.len(),
        old(program)@[input as int].dims.len() == 3,
        within(old(program)@[input as int].dims, 2, span),
    ensures
        added(
            old(program)@,
            final(program)@,
            id,
            features_term(term(old(program)@, input as int), span),
        ),
        final(program)@[id as int].dims == seq![
            old(program)@[input as int].dims[0],
            old(program)@[input as int].dims[1],
            (span.end - span.start) as usize,
        ],
{
    let id: usize = program.slice(input, 2, span.start, span.end);
    assert(program@[id as int].dims =~= seq![
        old(program)@[input as int].dims[0],
        old(program)@[input as int].dims[1],
        (span.end - span.start) as usize,
    ]);
    id
}

impl PackedLlamaAttention {
    /// The projections match the heads.
    pub open spec fn wf(&self) -> bool {
        &&& grouped(self.num_query_heads, self.num_kv_heads, self.head_dimension)
        &&& self.qkv.outputs == (self.num_query_heads + 2 * self.num_kv_heads)
            * self.head_dimension
        &&& self.o_proj.inputs == self.num_query_heads * self.head_dimension
        &&& self.o_proj.outputs == self.qkv.inputs
    }

    /// The columns of the queries.
    pub open spec fn query_span(&self) -> Span {
        Span { start: 0, end: (self.num_query_heads * self.head_dimension) as usize }
    }

    /// The columns of the keys.
    pub open spec fn key_span(&self) -> Span {
        let query = self.num_query_heads * self.head_dimension;
        let kv = self.num_kv_heads * self.head_dimension;
        Span { start: query as usize, end: (query + kv) as usize }
    }

    /// The columns of the values.
    pub open spec fn value_span(&self) -> Span {
        let query = self.num_query_heads * self.head_dimension;
        let kv = self.num_kv_heads * self.head_dimension;
        Span { start: (query + kv) as usize, end: (query + 2 * kv) as usize }
    }

    /// An input that the attention can work on from a position on.
    pub open spec fn takes(&self, dims: Seq<usize>, position: usize) -> bool {
        &&& dims.len() == 3
        &&& dims[2] == self.qkv.inputs
        &&& position + dims[1] <= self.rope.positions
    }

    /// The shape of the keys of an input.
    pub open spec fn key_dims(&self, dims: Seq<usize>) -> Seq<usize> {
        seq![dims[0], self.num_kv_heads, dims[1], self.head_dimension]
    }

    /// Queries, keys and values, in heads and with their positions, of the three parts of a
    /// projection.
    pub open spec fn positioned(&self, query: Term, key: Term, value: Term, position: usize)
        -> Projected {
        Projected {
            query: rotated(
                self.rotary_layout,
                self.rope,
                heads_of(query, self.num_query_heads, self.head_dimension),
                position,
            ),
            key: rotated(
                self.rotary_layout,
                self.rope,
                heads_of(key, self.num_kv_heads, self.head_dimension),
                position,
            ),
            value: heads_of(value, self.num_kv_heads, self.head_dimension),
        }
    }

    /// The whole projection of an input.
    pub open spec fn packed(&self, input: Term) -> Term {
        project_term(Parameter::PackedQkv(self.layer), input, self.qkv.outputs)
    }

    /// The queries, keys and values of a pass without a cache.
    pub open spec fn projected(&self, input: Term) -> Projected {
        let parameter = Parameter::PackedQkv(self.layer);
        self.positioned(
            part_term(parameter, self.query_span(), input, self.qkv.outputs),
            part_term(parameter, self.key_span(), input, self.qkv.outputs),
            part_term(parameter, self.value_span(), input, self.qkv.outputs),
            0,
        )
    }

    /// The queries, keys and values of a pass with a cache.
    pub open spec fn cached_projected(&self, input: Term, position: usize) -> Projected {
        let all = self.packed(input);
        self.positioned(
            features_term(all, self.query_span()),
            features_term(all, self.key_span()),
            features_term(all, self.value_span()),
            position,
        )
    }

    /// How often each KV head is repeated.
    pub open spec fn groups(&self) -> usize {
        (self.num_query_heads / self.num_kv_heads) as usize
    }

    /// The context of queries over keys and values with fewer heads.
    pub open spec fn context(&self, query: Term, key: Term, value: Term, position: usize) -> Term {
        attended(
            query,
            repeated_heads(key, self.groups()),
            repeated_heads(value, self.groups()),
            position,
        )
    }

    /// Attend with queries to keys and values with fewer heads.
    fn attend(
        &self,
        program: &mut Program,
        query: usize,
        key: usize,
        value: usize,
        position: usize,
    ) -> (id: usize)
        requires
            self.wf(),
            query < old(program)@.len(),
            key < old(program)@.len(),
            value < old(program)@.len(),
            old(program)@[query as int].dims.len() == 4,
            old(program)@[query as int].dims[1] == self.num_query_heads,
            old(program)@[query as int].dims[3] == self.head_dimension,
            old(program)@[key as int].dims == seq![
                old(program)@[query as int].dims[0],
                self.num_kv_heads,
                old(program)@[key as int].dims[2],
                self.head_dimension,
            ],
            old(program)@[value as int].dims == old(program)@[key as int].dims,
            position + old(program)@[query as int].dims[2] <= old(program)@[key as int].dims[2],
        ensures
            added(
                old(program)@,
                final(program)@,
                id,
                self.context(
                    term(old(program)@, query as int),
                    term(old(program)@, key as int),
                    term(old(program)@, value as int),
                    position,
                ),
            ),
            final(program)@[id as int].dims == old(program)@[query as int].dims,
    {
        proof {
            lemma_groups(self.num_query_heads, self.num_kv_heads, self.head_dimension);
        }
        let groups: usize = self.num_query_heads / self.num_kv_heads;
        let all_keys: usize = repeat_kv(program, key, groups);
        let all_values: usize = repeat_kv(program, value, groups);
        causal_attention(program, query, all_keys, all_values, position)
    }

    /// The output of a pass without a cache: with a mask where there is one, else by fused causal
    /// attention.
    pub open spec fn result(&self, input: Term, mask: Option<Term>) -> Term {
        let p = self.projected(input);
        let key = repeated_heads(p.key, self.groups());
        let value = repeated_heads(p.value, self.groups());
        let context = match mask {
            Some(mask) => masked_attention(p.query, key, value, mask),
            None => same_term(Op::FlashAttention(p.query, key, value), p.query),
        };
        project_term(Parameter::Output(self.layer), merged(context), self.o_proj.outputs)
    }

    /// The output of a pass after what a cache holds.
    pub open spec fn cached_result(&self, input: Term, cache: LlamaLayerCache) -> Term {
        let p = self.cached_projected(input, cache.sequence_length);
        let context = self.context(
            p.query,
            cache.appended(Op::CachedKey(self.layer), p.key),
            cache.appended(Op::CachedValue(self.layer), p.value),
            cache.sequence_length,
        );
        project_term(Parameter::Output(self.layer), merged(context), self.o_proj.outputs)
    }

    proof fn lemma_spans(&self)
        requires
            self.wf(),
        ensures
            self.query_span().end == self.num_query_heads * self.head_dimension,
            self.key_span().start == self.query_span().end,
            self.key_span().end - self.key_span().start == self.num_kv_heads * self.head_dimension,
            self.value_span().start == self.key_span().end,
            self.value_span().end - self.value_span().start == self.num_kv_heads
                * self.head_dimension,
            self.value_span().end == self.qkv.outputs,
            self.query_span().end + 2 * (self.num_kv_heads * self.head_dimension)
                == self.qkv.outputs,
    {
        lemma_groups(self.num_query_heads, self.num_kv_heads, self.head_dimension);
        let q = self.num_query_heads as int;
        let k = self.num_kv_heads as int;
        let d = self.head_dimension as int;
        assert((q + 2 * k) * d == q * d + 2 * (k * d)) by (nonlinear_arith);
    }

    /// Pack the projections of attention.
    pub fn from_attention(attention: LlamaAttention) -> (packed: Self)
        requires
            attention.wf(),
            (attention.num_query_heads + 2 * attention.num_kv_heads) * attention.head_dimension
                <= usize::MAX,
            attention.q_proj.bias is Some == attention.k_proj.bias is Some,
            attention.q_proj.bias is Some == attention.v_proj.bias is Some,
            attention.q_proj.bias matches Some(length) ==> length == attention.q_proj.outputs,
            attention.k_proj.bias matches Some(length) ==> length == attention.k_proj.outputs,
            attention.v_proj.bias matches Some(length) ==> length == attention.v_proj.outputs,
        ensures
            packed.wf(),
            packed == Self::packing(attention),
    {
        let query: usize = attention.q_proj.outputs;
        let key: usize = attention.k_proj.outputs;
        proof {
            let q = attention.num_query_heads as int;
            let k = attention.num_kv_heads as int;
            let d = attention.head_dimension as int;
            assert((q + 2 * k) * d == q * d + k * d + k * d) by (nonlinear_arith);
        }
        let outputs: usize = query + key + attention.v_proj.outputs;
        let bias = match (attention.q_proj.bias, attention.k_proj.bias, attention.v_proj.bias) {
            (Some(query_bias), Some(key_bias), Some(value_bias)) => Some(
                query_bias + key_bias + value_bias,
            ),
            _ => None,
        };
        PackedLlamaAttention {
            layer: attention.layer,
            qkv: Linear {
                inputs: attention.q_proj.inputs,
                outputs,
                bias,
                layout: LinearLayout::Col,
            },
            o_proj: attention.o_proj,
            rope: attention.rope,
            rotary_layout: attention.rotary_layout,
            num_query_heads: attention.num_query_heads,
            num_kv_heads: attention.num_kv_heads,
            head_dimension: attention.head_dimension,
        }
    }

    /// The packed form of attention: the columns of queries, keys and values side by side.
    pub open spec fn packing(attention: LlamaAttention) -> Self {
        let outputs = (attention.q_proj.outputs + attention.k_proj.outputs
            + attention.v_proj.outputs) as usize;
        PackedLlamaAttention {
            layer: attention.layer,
            qkv: Linear {
                inputs: attention.q_proj.inputs,
                outputs,
                bias: if attention.q_proj.bias is Some {
                    Some(outputs)
                } else {
                    None
                },
                layout: LinearLayout::Col,
            },
            o_proj: attention.o_proj,
            rope: attention.rope,
            rotary_layout: attention.rotary_layout,
            num_query_heads: attention.num_query_heads,
            num_kv_heads: attention.num_kv_heads,
            head_dimension: attention.head_dimension,
        }
    }

    /// Split parts of a projection into heads, and rotate positions into queries and keys.
    fn position(
        &self,
        program: &mut Program,
        query: usize,
        key: usize,
        value: usize,
        position: usize,
    ) -> (ids: (usize, usize, usize))
        requires
            self.wf(),
            query < old(program)@.len(),
            key < old(program)@.len(),
            value < old(program)@.len(),
            old(program)@[query as int].dims.len() == 3,
            old(program)@[query as int].dims[2] == self.num_query_heads * self.head_dimension,
            old(program)@[key as int].dims == seq![
                old(program)@[query as int].dims[0],
                old(program)@[query as int].dims[1],
                (self.num_kv_heads * self.head_dimension) as usize,
            ],
            old(program)@[value as int].dims == old(program)@[key as int].dims,
            position + old(program)@[query as int].dims[1] <= self.rope.positions,
        ensures
            ({
                let dims = old(program)@[query as int].dims;
                let p = self.positioned(
                    term(old(program)@, query as int),
                    term(old(program)@, key as int),
                    term(old(program)@, value as int),
                    position,
                );
                &&& added(old(program)@, final(program)@, ids.0, p.query)
                &&& added(old(program)@, final(program)@, ids.1, p.key)
                &&& added(old(program)@, final(program)@, ids.2, p.value)
                &&& final(program)@[ids.0 as int].dims == seq![
                    dims[0],
                    self.num_query_heads,
                    dims[1],
                    self.head_dimension,
                ]
                &&& final(program)@[ids.1 as int].dims == self.key_dims(dims)
                &&& final(program)@[ids.2 as int].dims == self.key_dims(dims)
            }),
    {
        proof {
            lemma_groups(self.num_query_heads, self.num_kv_heads, self.head_dimension);
        }
        let query: usize = split_heads(program, query, self.num_query_heads, self.head_dimension);
        let key: usize = split_heads(program, key, self.num_kv_heads, self.head_dimension);
        let value: usize = split_heads(program, value, self.num_kv_heads, self.head_dimension);
        let query: usize = apply_rope(self.rotary_layout, self.rope, program, query, position);
        let key: usize = apply_rope(self.rotary_layout, self.rope, program, key, position);
        (query, key, value)
    }

    /// Project an input to queries, keys and values.
    fn project(&self, program: &mut Program, input: usize) -> (ids: (usize, usize, usize))
        requires
            self.wf(),
            input < old(program)@.len(),
            self.takes(old(program)@[input as int].dims, 0),
            old(program)@[input as int].dims[0] * old(program)@[input as int].dims[1]
                <= usize::MAX,
        ensures
            ({
                let dims = old(program)@[input as int].dims;
                let p = self.projected(term(old(program)@, input as int));
                &&& added(old(program)@, final(program)@, ids.0, p.query)
                &&& added(old(program)@, final(program)@, ids.1, p.key)
                &&& added(old(program)@, final(program)@, ids.2, p.value)
                &&& final(program)@[ids.0 as int].dims == seq![
                    dims[0],
                    self.num_query_heads,
                    dims[1],
                    self.head_dimension,
                ]
                &&& final(program)@[ids.1 as int].dims == self.key_dims(dims)
                &&& final(program)@[ids.2 as int].dims == self.key_dims(dims)
            }),
    {
        proof {
            lemma_groups(self.num_query_heads, self.num_kv_heads, self.head_dimension);
            self.lemma_spans();
        }
        let batch: usize = program.dim(input, 0);
        let sequence: usize = program.dim(input, 1);
        let query_width: usize = self.num_query_heads * self.head_dimension;
        let kv_width: usize = self.num_kv_heads * self.head_dimension;
        let query_span = Span { start: 0, end: query_width };
        let key_span = Span { start: query_width, end: query_width + kv_width };
        let value_span = Span { start: query_width + kv_width, end: query_width + 2 * kv_width };
        assert(query_span == self.query_span());
        assert(key_span == self.key_span());
        assert(value_span == self.value_span());
        let parameter = Parameter::PackedQkv(self.layer);
        let (query, key, value) = if batch * sequence < PACKED_TRAINING_MIN_TOKENS {
            let query: usize = project_columns(program, parameter, query_span, input);
            let key: usize = project_columns(program, parameter, key_span, input);
            let value: usize = project_columns(program, parameter, value_span, input);
            (query, key, value)
        } else {
            let all: usize = self.qkv.forward(program, parameter, input);
            let query: usize = take_features(program, all, query_span);
            let key: usize = take_features(program, all, key_span);
            let value: usize = take_features(program, all, value_span);
            (query, key, value)
        };
        self.position(program, query, key, value, 0)
    }

    /// Attend from every position of an input to those up to it.
    pub fn forward(&self, program: &mut Program, input: usize, causal_mask: Option<usize>) -> (id:
        usize)
        requires
            self.wf(),
            input < old(program)@.len(),
            self.takes(old(program)@[input as int].dims, 0),
            old(program)@[input as int].dims[0] * old(program)@[input as int].dims[1]
                <= usize::MAX,
            causal_mask matches Some(mask) ==> mask < old(program)@.len()
                && old(program)@[mask as int].dims == seq![
                1usize,
                1usize,
                old(program)@[input as int].dims[1],
                old(program)@[input as int].dims[1],
            ],
        ensures
            added(
                old(program)@,
                final(program)@,
                id,
                self.result(
                    term(old(program)@, input as int),
                    match causal_mask {
                        Some(mask) => Some(term(old(program)@, mask as int)),
                        None => None,
                    },
                ),
            ),
            final(program)@[id as int].dims == old(program)@[input as int].dims,
    {
        proof {
            lemma_groups(self.num_query_heads, self.num_kv_heads, self.head_dimension);
        }
        let (query, key, value) = self.project(program, input);
        let groups: usize = self.num_query_heads / self.num_kv_heads;
        let key: usize = repeat_kv(program, key, groups);
        let value: usize = repeat_kv(program, value, groups);
        assert(program@[key as int].dims =~= program@[query as int].dims);
        let context: usize = match causal_mask {
            Some(mask) => causal_attention_with_mask(program, query, key, value, mask),
            None => program.same(Op::FlashAttention(query, key, value), query),
        };
        let features: usize = merge_heads(program, context);
        let id: usize = self.o_proj.forward(program, Parameter::Output(self.layer), features);
        assert(program@[id as int].dims =~= old(program)@[input as int].dims);
        id
    }
}

impl PackedLlamaAttention {
    /// Project an input, and take the projection apart.
    fn project_cached(&self, program: &mut Program, input: usize, position: usize) -> (ids: (
        usize,
        usize,
        usize,
    ))
        requires
            self.wf(),
            input < old(program)@.len(),
            self.takes(old(program)@[input as int].dims, position),
        ensures
            ({
                let dims = old(program)@[input as int].dims;
                let p = self.cached_projected(term(old(program)@, input as int), position);
                &&& added(old(program)@, final(program)@, ids.0, p.query)
                &&& added(old(program)@, final(program)@, ids.1, p.key)
                &&& added(old(program)@, final(program)@, ids.2, p.value)
                &&& final(program)@[ids.0 as int].dims == seq![
                    dims[0],
                    self.num_query_heads,
                    dims[1],
                    self.head_dimension,
                ]
                &&& final(program)@[ids.1 as int].dims == self.key_dims(dims)
                &&& final(program)@[ids.2 as int].dims == self.key_dims(dims)
            }),
    {
        proof {
            lemma_groups(self.num_query_heads, self.num_kv_heads, self.head_dimension);
            self.lemma_spans();
        }
        let query_width: usize = self.num_query_heads * self.head_dimension;
        let kv_width: usize = self.num_kv_heads * self.head_dimension;
        let query_span = Span { start: 0, end: query_width };
        let key_span = Span { start: query_width, end: query_width + kv_width };
        let value_span = Span { start: query_width + kv_width, end: query_width + 2 * kv_width };
        assert(query_span == self.query_span());
        assert(key_span == self.key_span());
        assert(value_span == self.value_span());
        let all: usize = self.qkv.forward(program, Parameter::PackedQkv(self.layer), input);
        let query: usize = take_features(program, all, query_span);
        let key: usize = take_features(program, all, key_span);
        let value: usize = take_features(program, all, value_span);
        self.position(program, query, key, value, position)
    }

    /// Attend from every position of an input to those up to it and to those that a cache holds,
    /// which the cache then holds too.
    pub fn forward_cached(
        &self,
        program: &mut Program,
        input: usize,
        cache: &mut LlamaLayerCache,
        position: usize,
    ) -> (pass: CachedPass)
        requires
            self.wf(),
            input < old(program)@.len(),
            self.takes(old(program)@[input as int].dims, position),
            old(cache).wf(),
            old(cache).layer == self.layer,
            old(cache).sequence_length == position,
            old(cache).storage_capacity == position,
            old(cache).accepts(self.key_dims(old(program)@[input as int].dims)),
        ensures
            ({
                let t = term(old(program)@, input as int);
                let p = self.cached_projected(t, position);
                &&& final(cache).wf()
                &&& *final(cache) == old(cache).joined(
                    self.key_dims(old(program)@[input as int].dims),
                )
                &&& added(
                    old(program)@,
                    final(program)@,
                    pass.output,
                    self.cached_result(t, *old(cache)),
                )
                &&& final(program)@[pass.output as int].dims == old(program)@[input as int].dims
                &&& added(
                    old(program)@,
                    final(program)@,
                    pass.key,
                    old(cache).appended(Op::CachedKey(self.layer), p.key),
                )
                &&& added(
                    old(program)@,
                    final(program)@,
                    pass.value,
                    old(cache).appended(Op::CachedValue(self.layer), p.value),
                )
            }),
    {
        let (query, new_key, new_value) = self.project_cached(program, input, position);
        let (key, value) = cache.append(program, new_key, new_value);
        let context: usize = self.attend(program, query, key, value, position);
        let features: usize = merge_heads(program, context);
        let output: usize = self.o_proj.forward(program, Parameter::Output(self.layer), features);
        assert(program@[output as int].dims =~= old(program)@[input as int].dims);
        CachedPass { output, key, value }
    }
}

/// The width of the heads that the decode kernel works on.
pub const DECODE_HEAD_DIMENSION: usize = 64;

impl PackedLlamaAttention {
    /// The shape that the layer's cache stores for an input.
    pub open spec fn stored_shape(&self, dims: Seq<usize>) -> StoredShape {
        StoredShape { batch: dims[0], heads: self.num_kv_heads, width: self.head_dimension }
    }

    /// The queries of an input, and the storage that its keys and values were written to.
    pub open spec fn kernel_projected(&self, input: Term, cache: LlamaLayerCache) -> Projected {
        let d = dims_of(input);
        let shape = self.stored_shape(d);
        let start = cache.sequence_length;
        let end = (start + d[1]) as usize;
        let key = cache.storage(Op::CachedKey(self.layer), shape, end as int);
        let val = cache.storage(Op::CachedValue(self.layer), shape, end as int);
        match self.rotary_layout {
            RotaryLayout::HalfSplit => {
                let query = value(
                    Op::FusedQuery {
                        projected: self.packed(input),
                        table: value(
                            Op::RotaryTable,
                            seq![self.rope.positions, self.head_dimension, 2],
                        ),
                        key,
                        value: val,
                        position: start,
                        start,
                    },
                    seq![d[0], self.num_query_heads, d[1], self.head_dimension],
                );
                Projected {
                    query,
                    key: same_term(Op::FusedKey(query, key), key),
                    value: same_term(Op::FusedValue(query, val), val),
                }
            },
            RotaryLayout::Interleaved => {
                let p = self.cached_projected(input, start);
                let span = Span { start, end };
                Projected {
                    query: p.query,
                    key: same_term(Op::SliceAssign(key, 2, span, p.key), key),
                    value: same_term(Op::SliceAssign(val, 2, span, p.value), val),
                }
            },
        }
    }

    /// The context of queries over the first `end` positions of storage: by the decode kernel
    /// where there is one position and the heads have its width.
    pub open spec fn kernel_context(&self, p: Projected, position: usize, end: usize) -> Term {
        if dims_of(p.query)[2] == 1 && self.head_dimension == DECODE_HEAD_DIMENSION {
            same_term(Op::DecodeAttention(p.query, p.key, p.value, end), p.query)
        } else {
            self.context(
                p.query,
                slice_term(p.key, 2, 0, end),
                slice_term(p.value, 2, 0, end),
                position,
            )
        }
    }

    /// The output of a pass with dedicated kernels.
    pub open spec fn kernel_result(&self, input: Term, cache: LlamaLayerCache) -> Term {
        let p = self.kernel_projected(input, cache);
        let end = (cache.sequence_length + dims_of(input)[1]) as usize;
        let context = self.kernel_context(p, cache.sequence_length, end);
        project_term(Parameter::Output(self.layer), joined(context), self.o_proj.outputs)
    }

    /// Project an input and write its keys and values into storage.
    fn kernel_project(
        &self,
        program: &mut Program,
        input: usize,
        cache: &mut LlamaLayerCache,
        position: usize,
    ) -> (ids: (usize, usize, usize, usize))
        requires
            self.wf(),
            input < old(program)@.len(),
            self.takes(old(program)@[input as int].dims, position),
            old(cache).wf(),
            old(cache).layer == self.layer,
            old(cache).sequence_length == position,
            old(cache).has_room(
                self.stored_shape(old(program)@[input as int].dims),
                old(program)@[input as int].dims[1],
            ),
        ensures
            ({
                let dims = old(program)@[input as int].dims;
                let shape = self.stored_shape(dims);
                let p = self.kernel_projected(term(old(program)@, input as int), *old(cache));
                &&& final(cache).wf()
                &&& *final(cache) == old(cache).grown_by(shape, dims[1])
                &&& ids.3 == position + dims[1]
                &&& added(old(program)@, final(program)@, ids.0, p.query)
                &&& added(old(program)@, final(program)@, ids.1, p.key)
                &&& added(old(program)@, final(program)@, ids.2, p.value)
                &&& final(program)@[ids.0 as int].dims == seq![
                    dims[0],
                    self.num_query_heads,
                    dims[1],
                    self.head_dimension,
                ]
                &&& final(program)@[ids.1 as int].dims == shape.dims(final(cache).storage_capacity)
                &&& final(program)@[ids.2 as int].dims == shape.dims(final(cache).storage_capacity)
            }),
    {
        let batch: usize = program.dim(input, 0);
        let sequence: usize = program.dim(input, 1);
        let ghost shape = self.stored_shape(program@[input as int].dims);
        match self.rotary_layout {
            RotaryLayout::HalfSplit => {
                let all: usize = self.qkv.forward(program, Parameter::PackedQkv(self.layer), input);
                let reserved = cache.reserve_growable(
                    program,
                    batch,
                    self.num_kv_heads,
                    sequence,
                    self.head_dimension,
                );
                let table_dims = vec![self.rope.positions, self.head_dimension, 2];
                assert(table_dims@ =~= seq![self.rope.positions, self.head_dimension, 2usize]);
                let table: usize = program.emit(Op::RotaryTable, table_dims);
                let dims = vec![batch, self.num_query_heads, sequence, self.head_dimension];
                assert(dims@ =~= seq![
                    batch,
                    self.num_query_heads,
                    sequence,
                    self.head_dimension,
                ]);
                let query: usize = program.emit(
                    Op::FusedQuery {
                        projected: all,
                        table,
                        key: reserved.key,
                        value: reserved.value,
                        position,
                        start: reserved.start,
                    },
                    dims,
                );
                let key: usize = program.same(Op::FusedKey(query, reserved.key), reserved.key);
                let value: usize = program.same(
                    Op::FusedValue(query, reserved.value),
                    reserved.value,
                );
                cache.commit_growable(reserved.end);
                (query, key, value, reserved.end)
            },
            RotaryLayout::Interleaved => {
                let (query, new_key, new_value) = self.project_cached(program, input, position);
                let (key, value, end) = cache.append_growable(program, new_key, new_value);
                (query, key, value, end)
            },
        }
    }

    /// Cached attention by the dedicated kernels.
    #[verifier::spinoff_prover]
    #[verifier::rlimit(40)]
    pub fn forward_cached_ruda(
        &self,
        program: &mut Program,
        input: usize,
        cache: &mut LlamaLayerCache,
        position: usize,
    ) -> (pass: CachedPass)
        requires
            self.wf(),
            input < old(program)@.len(),
            self.takes(old(program)@[input as int].dims, position),
            old(cache).wf(),
            old(cache).layer == self.layer,
            old(cache).sequence_length == position,
            old(cache).has_room(
                self.stored_shape(old(program)@[input as int].dims),
                old(program)@[input as int].dims[1],
            ),
        ensures
            ({
                let t = term(old(program)@, input as int);
                let dims = old(program)@[input as int].dims;
                let p = self.kernel_projected(t, *old(cache));
                &&& final(cache).wf()
                &&& *final(cache) == old(cache).grown_by(self.stored_shape(dims), dims[1])
                &&& added(
                    old(program)@,
                    final(program)@,
                    pass.output,
                    self.kernel_result(t, *old(cache)),
                )
                &&& final(program)@[pass.output as int].dims == dims
                &&& added(old(program)@, final(program)@, pass.key, p.key)
                &&& added(old(program)@, final(program)@, pass.value, p.value)
            }),
    {
        let sequence: usize = program.dim(input, 1);
        let (query, key, value, end) = self.kernel_project(program, input, cache, position);
        proof {
            lemma_groups(self.num_query_heads, self.num_kv_heads, self.head_dimension);
        }
        let context: usize = if sequence == 1 && self.head_dimension == DECODE_HEAD_DIMENSION {
            program.same(Op::DecodeAttention(query, key, value, end), query)
        } else {
            let first_keys: usize = program.slice(key, 2, 0, end);
            let first_values: usize = program.slice(value, 2, 0, end);
            proof {
                let dims = old(program)@[input as int].dims;
                assert(program@[first_keys as int].dims =~= self.stored_shape(dims).dims(end));
                assert(program@[first_values as int].dims =~= self.stored_shape(dims).dims(end));
            }
            self.attend(program, query, first_keys, first_values, position)
        };
        let features: usize = join_heads(program, context);
        let output: usize = self.o_proj.forward(program, Parameter::Output(self.layer), features);
        assert(program@[output as int].dims =~= old(program)@[input as int].dims);
        CachedPass { output, key, value }
    }
}

#[derive(Clone, Copy, Debug, PartialEq, Eq, Structural)]
pub struct PackedLlamaFeedForward {
    /// The layer that the feed-forward block belongs to.
    pub layer: usize,
    /// Gating columns, then those of the features that are let through.
    pub gate_up: Linear,
    pub down_proj: Linear,
    pub d_ff: usize,
}

impl PackedLlamaFeedForward {
    /// The projections match one another.
    pub open spec fn wf(&self) -> bool {
        &&& self.gate_up.outputs == 2 * self.d_ff
        &&& self.gate_up.inputs == self.down_proj.outputs
        &&& self.down_proj.inputs == self.d_ff
    }

    /// The gating columns.
    pub open spec fn gate_span(&self) -> Span {
        Span { start: 0, end: self.d_ff }
    }

    /// The columns of the features that are let through.
    pub open spec fn up_span(&self) -> Span {
        Span { start: self.d_ff, end: (2 * self.d_ff) as usize }
    }

    /// The packed form of a feed-forward block.
    pub open spec fn packing(feed_forward: LlamaFeedForward) -> Self {
        PackedLlamaFeedForward {
            layer: feed_forward.layer,
            gate_up: Linear {
                inputs: feed_forward.gate_proj.inputs,
                outputs: (2 * feed_forward.gate_proj.outputs) as usize,
                bias: None,
                layout: LinearLayout::Col,
            },
            down_proj: feed_forward.down_proj,
            d_ff: feed_forward.gate_proj.outputs,
        }
    }

    /// Pack the projections of a feed-forward block.
    pub fn from_feed_forward(feed_forward: LlamaFeedForward) -> (packed: Self)
        requires
            feed_forward.wf(),
            2 * feed_forward.gate_proj.outputs <= usize::MAX,
        ensures
            packed.wf(),
            packed == Self::packing(feed_forward),
    {
        let d_ff: usize = feed_forward.gate_proj.outputs;
        PackedLlamaFeedForward {
            layer: feed_forward.layer,
            gate_up: Linear {
                inputs: feed_forward.gate_proj.inputs,
                outputs: 2 * d_ff,
                bias: None,
                layout: LinearLayout::Col,
            },
            down_proj: feed_forward.down_proj,
            d_ff,
        }
    }

    /// The output of the block.
    pub open spec fn result(&self, input: Term) -> Term {
        let parameter = Parameter::PackedGateUp(self.layer);
        project_term(
            Parameter::Down(self.layer),
            gated(
                part_term(parameter, self.gate_span(), input, self.gate_up.outputs),
                part_term(parameter, self.up_span(), input, self.gate_up.outputs),
            ),
            self.down_proj.outputs,
        )
    }

    /// The output of the block with its dedicated kernel.
    pub open spec fn kernel_result(&self, input: Term) -> Term {
        let all = project_term(Parameter::PackedGateUp(self.layer), input, self.gate_up.outputs);
        project_term(
            Parameter::Down(self.layer),
            value(Op::Swiglu(all), seq![dims_of(input)[0], dims_of(input)[1], self.d_ff]),
            self.down_proj.outputs,
        )
    }

    pub fn forward(&self, program: &mut Program, input: usize) -> (id: usize)
        requires
            self.wf(),
            input < old(program)@.len(),
            old(program)@[input as int].dims.len() == 3,
            old(program)@[input as int].dims[2] == self.gate_up.inputs,
            old(program)@[input as int].dims[0] * old(program)@[input as int].dims[1]
                <= usize::MAX,
        ensures
            added(
                old(program)@,
                final(program)@,
                id,
                self.result(term(old(program)@, input as int)),
            ),
            final(program)@[id as int].dims == old(program)@[input as int].dims,
    {
        let batch: usize = program.dim(input, 0);
        let sequence: usize = program.dim(input, 1);
        let gate_span = Span { start: 0, end: self.d_ff };
        let up_span = Span { start: self.d_ff, end: 2 * self.d_ff };
        let parameter = Parameter::PackedGateUp(self.layer);
        let (gate, up) = if batch * sequence < PACKED_TRAINING_MIN_TOKENS {
            let gate: usize = project_columns(program, parameter, gate_span, input);
            let up: usize = project_columns(program, parameter, up_span, input);
            (gate, up)
        } else {
            let all: usize = self.gate_up.forward(program, parameter, input);
            let gate: usize = take_features(program, all, gate_span);
            let up: usize = take_features(program, all, up_span);
            (gate, up)
        };
        let features: usize = apply_gate(program, gate, up);
        let id: usize = self.down_proj.forward(program, Parameter::Down(self.layer), features);
        assert(program@[id as int].dims =~= old(program)@[input as int].dims);
        id
    }

    /// The block by its dedicated kernel.
    pub fn forward_ruda(&self, program: &mut Program, input: usize) -> (id: usize)
        requires
            self.wf(),
            input < old(program)@.len(),
            old(program)@[input as int].dims.len() == 3,
            old(program)@[input as int].dims[2] == self.gate_up.inputs,
        ensures
            added(
                old(program)@,
                final(program)@,
                id,
                self.kernel_result(term(old(program)@, input as int)),
            ),
            final(program)@[id as int].dims == old(program)@[input as int].dims,
    {
        let all: usize = self.gate_up.forward(program, Parameter::PackedGateUp(self.layer), input);
        let dims = vec![program.dim(input, 0), program.dim(input, 1), self.d_ff];
        assert(dims@ =~= seq![
            program@[input as int].dims[0],
            program@[input as int].dims[1],
            self.d_ff,
        ]);
        let features: usize = program.emit(Op::Swiglu(all), dims);
        let id: usize = self.down_proj.forward(program, Parameter::Down(self.layer), features);
        assert(program@[id as int].dims =~= old(program)@[input as int].dims);
        id
    }
}

} // verus!
