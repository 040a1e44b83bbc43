//! What packing keeps: a packed model computes what the model that it was packed from computes.
//!
//! The laws speak of values that are interchangeable. Which values are is up to the device: a
//! relation between values stands for it. The laws ask of the relation that it is an equivalence,
//! that it tells shapes apart, that an operation keeps it, that the columns of a packed weight are
//! the weights that were packed, and that a single position needs no exchange of axes before heads
//! are joined.

use crate::llama::attention::{
    attended, half_split_factors, half_split_pairs, half_split_rotated, mask_term,
    masked_attention, repeated_heads, RotaryLayout,
};
use crate::llama::cache::{dims_of, slice_term, value, LlamaLayerCache};
use crate::llama::heads::{heads_of, joined, merged, rotated, RotaryEncoding};
use crate::llama::model::{embedded, last_position, through, through_cached, LlamaForCausalLm};
use crate::llama::packed::{
    columns_term, features_term, part_term, PackedLlamaAttention, PackedLlamaFeedForward,
};
use crate::llama::packed_model::{
    mask_for, packed_cached_through, packed_through, PackedLlamaDecoderLayer,
    PackedLlamaForCausalLm, FLASH_ATTENTION_MIN_SEQUENCE,
};
use crate::llama::program::{each, map_op, Op, Parameter, Span, Term};
use crate::llama::standard::{
    gated, lemma_groups, norm_term, sum_term, LlamaAttention, LlamaDecoderLayer, LlamaFeedForward,
};
use crate::llama::steps::project_term;
use vstd::prelude::*;

verus! {

/// An operation over interchangeable operands gives interchangeable results.
pub open spec fn kept(
    same: spec_fn(Term, Term) -> bool,
    op: Op<(Term, Term)>,
    dims: Seq<usize>,
) -> bool {
    each(op, |pair: (Term, Term)| same(pair.0, pair.1)) ==> same(
        value(map_op(op, |pair: (Term, Term)| pair.0), dims),
        value(map_op(op, |pair: (Term, Term)| pair.1), dims),
    )
}

/// A relation between interchangeable values: an equivalence that tells shapes apart and that
/// operations keep.
pub open spec fn interchange(same: spec_fn(Term, Term) -> bool) -> bool {
    &&& forall|x: Term| #[trigger] same(x, x)
    &&& forall|x: Term, y: Term| #[trigger] same(x, y) ==> same(y, x)
    &&& forall|x: Term, y: Term, z: Term| #[trigger]
        same(x, y) && #[trigger] same(y, z) ==> same(x, z)
    &&& forall|x: Term, y: Term| #[trigger] same(x, y) ==> dims_of(x) == dims_of(y)
    &&& forall|op: Op<(Term, Term)>, dims: Seq<usize>| #[trigger] kept(same, op, dims)
    &&& forall|context: Term|
        dims_of(context).len() == 4 && dims_of(context)[2] == 1 ==> same(
            #[trigger] merged(context),
            joined(context),
        )
}

/// Some columns of a packed weight are a weight of their own.
pub open spec fn column_of(
    same: spec_fn(Term, Term) -> bool,
    packed: Parameter,
    span: Span,
    outputs: usize,
    single: Parameter,
    t: Term,
) -> bool {
    let width = (span.end - span.start) as usize;
    &&& same(columns_term(packed, span, t), project_term(single, t, width))
    &&& same(features_term(project_term(packed, t, outputs), span), project_term(single, t, width))
}

/// The columns of a layer's packed weights are the weights that were packed.
pub open spec fn unpacks(
    same: spec_fn(Term, Term) -> bool,
    layer: PackedLlamaDecoderLayer,
    t: Term,
) -> bool {
    let attention = layer.self_attn;
    let mlp = layer.mlp;
    let qkv = Parameter::PackedQkv(attention.layer);
    let gate_up = Parameter::PackedGateUp(mlp.layer);
    &&& column_of(
        same,
        qkv,
        attention.query_span(),
        attention.qkv.outputs,
        Parameter::Query(attention.layer),
        t,
    )
    &&& column_of(
        same,
        qkv,
        attention.key_span(),
        attention.qkv.outputs,
        Parameter::Key(attention.layer),
        t,
    )
    &&& column_of(
        same,
        qkv,
        attention.value_span(),
        attention.qkv.outputs,
        Parameter::Value(attention.layer),
        t,
    )
    &&& column_of(
        same,
        gate_up,
        mlp.gate_span(),
        mlp.gate_up.outputs,
        Parameter::Gate(mlp.layer),
        t,
    )
    &&& column_of(same, gate_up, mlp.up_span(), mlp.gate_up.outputs, Parameter::Up(mlp.layer), t)
}

/// One operation keeps interchange.
proof fn keep(same: spec_fn(Term, Term) -> bool, op: Op<(Term, Term)>, dims: Seq<usize>)
    requires
        interchange(same),
        each(op, |pair: (Term, Term)| same(pair.0, pair.1)),
    ensures
        same(
            value(map_op(op, |pair: (Term, Term)| pair.0), dims),
            value(map_op(op, |pair: (Term, Term)| pair.1), dims),
        ),
{
    assert(kept(same, op, dims));
}

proof fn keep_project(
    same: spec_fn(Term, Term) -> bool,
    parameter: Parameter,
    a: Term,
    b: Term,
    width: usize,
)
    requires
        interchange(same),
        same(a, b),
    ensures
        same(project_term(parameter, a, width), project_term(parameter, b, width)),
{
    keep(
        same,
        Op::Project(parameter, (a, b)),
        seq![dims_of(a)[0], dims_of(a)[1], width],
    );
}

proof fn keep_heads(
    same: spec_fn(Term, Term) -> bool,
    a: Term,
    b: Term,
    heads: usize,
    width: usize,
)
    requires
        interchange(same),
        same(a, b),
    ensures
        same(heads_of(a, heads, width), heads_of(b, heads, width)),
{
    let d = dims_of(a);
    let dims = seq![d[0], d[1], heads, width];
    keep(same, Op::Reshape((a, b)), dims);
    let x = value(Op::Reshape(a), dims);
    let y = value(Op::Reshape(b), dims);
    assert(same(x, y));
    keep(
        same,
        Op::SwapDims((x, y), 1, 2),
        dims.update(1, dims[2]).update(2, dims[1]),
    );
}

proof fn keep_slice(
    same: spec_fn(Term, Term) -> bool,
    a: Term,
    b: Term,
    axis: usize,
    start: usize,
    end: usize,
)
    requires
        interchange(same),
        same(a, b),
    ensures
        same(
            slice_term(a, axis, start, end),
            slice_term(b, axis, start, end),
        ),
{
    keep(
        same,
        Op::Slice((a, b), axis, Span { start, end }),
        dims_of(a).update(axis as int, (end - start) as usize),
    );
}

proof fn keep_rotated(
    same: spec_fn(Term, Term) -> bool,
    layout: RotaryLayout,
    rope: RotaryEncoding,
    a: Term,
    b: Term,
    start: usize,
)
    requires
        interchange(same),
        same(a, b),
    ensures
        same(rotated(layout, rope, a, start), rotated(layout, rope, b, start)),
{
    let d = dims_of(a);
    match layout {
        RotaryLayout::Interleaved => {
            keep(same, Op::Rotate((a, b), start), d);
        },
        RotaryLayout::HalfSplit => {
            reveal(half_split_rotated);
            let half = (d[3] / 2) as usize;
            let pairs = half_split_pairs(rope.positions, d[3], start, d[2]);
            let cosine = half_split_factors(pairs, d[3], 0);
            let sine = half_split_factors(pairs, d[3], 1);
            assert(same(cosine, cosine) && same(sine, sine));
            keep_slice(same, a, b, 3, 0, half);
            keep_slice(same, a, b, 3, half, d[3]);
            let first_a = slice_term(a, 3, 0, half);
            let first_b = slice_term(b, 3, 0, half);
            let second_a = slice_term(a, 3, half, d[3]);
            let second_b = slice_term(b, 3, half, d[3]);
            keep(same, Op::Negate((second_a, second_b)), dims_of(second_a));
            let negated_a = value(Op::Negate(second_a), dims_of(second_a));
            let negated_b = value(Op::Negate(second_b), dims_of(second_b));
            assert(same(negated_a, negated_b));
            let rotated_a = crate::llama::steps::cat_term(negated_a, first_a, 3);
            let rotated_b = crate::llama::steps::cat_term(negated_b, first_b, 3);
            keep(same, Op::Cat((negated_a, negated_b), (first_a, first_b), 3), dims_of(rotated_a));
            assert(same(rotated_a, rotated_b));
            keep(same, Op::Multiply((a, b), (cosine, cosine)), d);
            keep(same, Op::Multiply((rotated_a, rotated_b), (sine, sine)), dims_of(rotated_a));
            let left_a = value(Op::Multiply(a, cosine), d);
            let left_b = value(Op::Multiply(b, cosine), d);
            let right_a = value(Op::Multiply(rotated_a, sine), dims_of(rotated_a));
            let right_b = value(Op::Multiply(rotated_b, sine), dims_of(rotated_b));
            assert(same(left_a, left_b) && same(right_a, right_b));
            keep(same, Op::Add((left_a, left_b), (right_a, right_b)), d);
        },
    }
}

proof fn keep_repeated(same: spec_fn(Term, Term) -> bool, a: Term, b: Term, repeats: usize)
    requires
        interchange(same),
        same(a, b),
    ensures
        same(repeated_heads(a, repeats), repeated_heads(b, repeats)),
{
    reveal(repeated_heads);
    let d = dims_of(a);
    if repeats != 1 {
        let wide = seq![d[0], d[1], 1, d[2], d[3]];
        keep(same, Op::Reshape((a, b)), wide);
        let x = value(Op::Reshape(a), wide);
        let y = value(Op::Reshape(b), wide);
        assert(same(x, y));
        let copied = seq![d[0], d[1], repeats, d[2], d[3]];
        keep(same, Op::RepeatDim((x, y), 2, repeats), copied);
        let x2 = value(Op::RepeatDim(x, 2, repeats), copied);
        let y2 = value(Op::RepeatDim(y, 2, repeats), copied);
        assert(same(x2, y2));
        keep(
            same,
            Op::Reshape((x2, y2)),
            seq![d[0], (d[1] * repeats) as usize, d[2], d[3]],
        );
    }
}

proof fn keep_attention(
    same: spec_fn(Term, Term) -> bool,
    query: (Term, Term),
    key: (Term, Term),
    values: (Term, Term),
    mask: Term,
)
    requires
        interchange(same),
        same(query.0, query.1),
        same(key.0, key.1),
        same(values.0, values.1),
    ensures
        same(
            masked_attention(query.0, key.0, values.0, mask),
            masked_attention(query.1, key.1, values.1, mask),
        ),
{
    reveal(masked_attention);
    assert(same(mask, mask));
    let d = dims_of(query.0);
    let k = dims_of(key.0);
    keep(same, Op::ToTypeOf((mask, mask), query), dims_of(mask));
    let typed_a = value(Op::ToTypeOf(mask, query.0), dims_of(mask));
    let typed_b = value(Op::ToTypeOf(mask, query.1), dims_of(mask));
    assert(same(typed_a, typed_b));
    let swapped = k.update(2, k[3]).update(3, k[2]);
    keep(same, Op::SwapDims(key, 2, 3), swapped);
    let transposed_a = value(Op::SwapDims(key.0, 2, 3), swapped);
    let transposed_b = value(Op::SwapDims(key.1, 2, 3), swapped);
    assert(same(transposed_a, transposed_b));
    let score_dims = seq![d[0], d[1], d[2], swapped[3]];
    keep(same, Op::Matmul(query, (transposed_a, transposed_b)), score_dims);
    let product_a = value(Op::Matmul(query.0, transposed_a), score_dims);
    let product_b = value(Op::Matmul(query.1, transposed_b), score_dims);
    assert(same(product_a, product_b));
    keep(same, Op::ScaleByInverseRoot((product_a, product_b), d[3]), score_dims);
    let scaled_a = value(Op::ScaleByInverseRoot(product_a, d[3]), score_dims);
    let scaled_b = value(Op::ScaleByInverseRoot(product_b, d[3]), score_dims);
    assert(same(scaled_a, scaled_b));
    keep(same, Op::Add((scaled_a, scaled_b), (typed_a, typed_b)), score_dims);
    let scores_a = value(Op::Add(scaled_a, typed_a), score_dims);
    let scores_b = value(Op::Add(scaled_b, typed_b), score_dims);
    assert(same(scores_a, scores_b));
    keep(same, Op::ToSingle((scores_a, scores_b)), score_dims);
    let single_a = value(Op::ToSingle(scores_a), score_dims);
    let single_b = value(Op::ToSingle(scores_b), score_dims);
    assert(same(single_a, single_b));
    keep(same, Op::Softmax((single_a, single_b), 3), score_dims);
    let shares_a = value(Op::Softmax(single_a, 3), score_dims);
    let shares_b = value(Op::Softmax(single_b, 3), score_dims);
    assert(same(shares_a, shares_b));
    keep(same, Op::ToTypeOf((shares_a, shares_b), values), score_dims);
    let chance_a = value(Op::ToTypeOf(shares_a, values.0), score_dims);
    let chance_b = value(Op::ToTypeOf(shares_b, values.1), score_dims);
    assert(same(chance_a, chance_b));
    let context_dims = seq![
        score_dims[0],
        score_dims[1],
        score_dims[2],
        dims_of(values.0)[3],
    ];
    keep(same, Op::Matmul((chance_a, chance_b), values), context_dims);
}

/// Attention keeps the shape of its queries.
proof fn lemma_attention_shape(query: Term, key: Term, values: Term, mask: Term)
    requires
        dims_of(query).len() == 4,
        dims_of(values).len() == 4,
        dims_of(query)[3] == dims_of(values)[3],
    ensures
        dims_of(masked_attention(query, key, values, mask)) == dims_of(query),
{
    reveal(masked_attention);
    assert(dims_of(masked_attention(query, key, values, mask)) =~= dims_of(query));
}

proof fn lemma_repeated_shape(t: Term, repeats: usize)
    requires
        dims_of(t).len() == 4,
        dims_of(t)[1] * repeats <= usize::MAX,
    ensures
        dims_of(repeated_heads(t, repeats)) == seq![
            dims_of(t)[0],
            (dims_of(t)[1] * repeats) as usize,
            dims_of(t)[2],
            dims_of(t)[3],
        ],
{
    reveal(repeated_heads);
    assert(dims_of(repeated_heads(t, repeats)) =~= seq![
        dims_of(t)[0],
        (dims_of(t)[1] * repeats) as usize,
        dims_of(t)[2],
        dims_of(t)[3],
    ]);
}

proof fn lemma_rotated_shape(layout: RotaryLayout, rope: RotaryEncoding, t: Term, start: usize)
    ensures
        dims_of(rotated(layout, rope, t, start)) == dims_of(t),
{
    reveal(half_split_rotated);
}

/// Joining heads either way gives interchangeable features.
proof fn keep_joined(same: spec_fn(Term, Term) -> bool, a: Term, b: Term)
    requires
        interchange(same),
        same(a, b),
        dims_of(a).len() == 4,
    ensures
        same(merged(a), joined(b)),
{
    let d = dims_of(a);
    let swapped = d.update(1, d[2]).update(2, d[1]);
    keep(same, Op::SwapDims((a, b), 1, 2), swapped);
    let x = value(Op::SwapDims(a, 1, 2), swapped);
    let y = value(Op::SwapDims(b, 1, 2), swapped);
    assert(same(x, y));
    keep(same, Op::Reshape((x, y)), seq![d[0], d[2], (d[1] * d[3]) as usize]);
    assert(same(merged(a), merged(b)));
    assert(same(merged(b), joined(b)));
}

/// Packed attention computes what attention computes, where it works with a mask.
pub proof fn law_packed_attention_matches(
    same: spec_fn(Term, Term) -> bool,
    attention: LlamaAttention,
    a: Term,
    b: Term,
)
    requires
        interchange(same),
        attention.wf(),
        (attention.num_query_heads + 2 * attention.num_kv_heads) * attention.head_dimension
            <= usize::MAX,
        same(a, b),
        dims_of(a).len() == 3,
        ({
            let packed = PackedLlamaAttention::packing(attention);
            let qkv = Parameter::PackedQkv(packed.layer);
            let outputs = packed.qkv.outputs;
            &&& column_of(
                same,
                qkv,
                packed.query_span(),
                outputs,
                Parameter::Query(packed.layer),
                a,
            )
            &&& column_of(same, qkv, packed.key_span(), outputs, Parameter::Key(packed.layer), a)
            &&& column_of(
                same,
                qkv,
                packed.value_span(),
                outputs,
                Parameter::Value(packed.layer),
                a,
            )
        }),
    ensures
        same(
            PackedLlamaAttention::packing(attention).result(
                a,
                Some(mask_term(dims_of(a)[1], dims_of(a)[1], 0)),
            ),
            attention.result(b),
        ),
{
    let packed = PackedLlamaAttention::packing(attention);
    let heads = attention.num_query_heads;
    let kv = attention.num_kv_heads;
    let width = attention.head_dimension;
    let rope = attention.rope;
    lemma_groups(heads, kv, width);
    assert((heads + 2 * kv) * width == heads * width + 2 * (kv * width)) by (nonlinear_arith);
    let groups = packed.groups();
    let qkv = Parameter::PackedQkv(packed.layer);
    let outputs = packed.qkv.outputs;
    keep_project(same, Parameter::Query(packed.layer), a, b, attention.q_proj.outputs);
    keep_project(same, Parameter::Key(packed.layer), a, b, attention.k_proj.outputs);
    keep_project(same, Parameter::Value(packed.layer), a, b, attention.v_proj.outputs);
    let query_a = part_term(qkv, packed.query_span(), a, outputs);
    let key_a = part_term(qkv, packed.key_span(), a, outputs);
    let value_a = part_term(qkv, packed.value_span(), a, outputs);
    let query_b = project_term(Parameter::Query(packed.layer), b, attention.q_proj.outputs);
    let key_b = project_term(Parameter::Key(packed.layer), b, attention.k_proj.outputs);
    let value_b = project_term(Parameter::Value(packed.layer), b, attention.v_proj.outputs);
    let middle_q = project_term(Parameter::Query(packed.layer), a, attention.q_proj.outputs);
    let middle_k = project_term(Parameter::Key(packed.layer), a, attention.k_proj.outputs);
    let middle_v = project_term(Parameter::Value(packed.layer), a, attention.v_proj.outputs);
    assert(same(query_a, middle_q) && same(middle_q, query_b));
    assert(same(key_a, middle_k) && same(middle_k, key_b));
    assert(same(value_a, middle_v) && same(middle_v, value_b));
    lemma_contexts(same, attention, (query_a, query_b), (key_a, key_b), (value_a, value_b), a);
    let p = packed.projected(a);
    let s = attention.projected(b, 0);
    let context_a = masked_attention(
        p.query,
        repeated_heads(p.key, groups),
        repeated_heads(p.value, groups),
        mask_term(dims_of(a)[1], dims_of(a)[1], 0),
    );
    let context_b = attended(
        s.query,
        repeated_heads(s.key, groups),
        repeated_heads(s.value, groups),
        0,
    );
    assert(same(context_a, context_b));
    keep_joined(same, context_a, context_b);
    keep_project(
        same,
        Parameter::Output(packed.layer),
        merged(context_a),
        joined(context_b),
        attention.o_proj.outputs,
    );
}

/// Interchangeable queries, keys and values give interchangeable contexts.
proof fn lemma_contexts(
    same: spec_fn(Term, Term) -> bool,
    attention: LlamaAttention,
    query: (Term, Term),
    key: (Term, Term),
    values: (Term, Term),
    input: Term,
)
    requires
        interchange(same),
        attention.wf(),
        same(query.0, query.1),
        same(key.0, key.1),
        same(values.0, values.1),
        dims_of(input).len() == 3,
        dims_of(query.1) == seq![
            dims_of(input)[0],
            dims_of(input)[1],
            attention.q_proj.outputs,
        ],
        dims_of(key.1) == seq![dims_of(input)[0], dims_of(input)[1], attention.k_proj.outputs],
        dims_of(values.1) == seq![dims_of(input)[0], dims_of(input)[1], attention.v_proj.outputs],
    ensures
        ({
            let heads = attention.num_query_heads;
            let kv = attention.num_kv_heads;
            let width = attention.head_dimension;
            let layout = attention.rotary_layout;
            let rope = attention.rope;
            let groups = (heads / kv) as usize;
            let sequence = dims_of(input)[1];
            let context_a = masked_attention(
                rotated(layout, rope, heads_of(query.0, heads, width), 0),
                repeated_heads(rotated(layout, rope, heads_of(key.0, kv, width), 0), groups),
                repeated_heads(heads_of(values.0, kv, width), groups),
                mask_term(sequence, sequence, 0),
            );
            let context_b = attended(
                rotated(layout, rope, heads_of(query.1, heads, width), 0),
                repeated_heads(rotated(layout, rope, heads_of(key.1, kv, width), 0), groups),
                repeated_heads(heads_of(values.1, kv, width), groups),
                0,
            );
            same(context_a, context_b) && dims_of(context_a).len() == 4
        }),
{
    let heads = attention.num_query_heads;
    let kv = attention.num_kv_heads;
    let width = attention.head_dimension;
    let layout = attention.rotary_layout;
    let rope = attention.rope;
    lemma_groups(heads, kv, width);
    let groups = (heads / kv) as usize;
    let sequence = dims_of(input)[1];
    keep_heads(same, query.0, query.1, heads, width);
    keep_heads(same, key.0, key.1, kv, width);
    keep_heads(same, values.0, values.1, kv, width);
    let q0 = heads_of(query.0, heads, width);
    let q1 = heads_of(query.1, heads, width);
    let k0 = heads_of(key.0, kv, width);
    let k1 = heads_of(key.1, kv, width);
    let v0 = heads_of(values.0, kv, width);
    let v1 = heads_of(values.1, kv, width);
    keep_rotated(same, layout, rope, q0, q1, 0);
    keep_rotated(same, layout, rope, k0, k1, 0);
    lemma_rotated_shape(layout, rope, q1, 0);
    lemma_rotated_shape(layout, rope, q0, 0);
    lemma_rotated_shape(layout, rope, k1, 0);
    let rq0 = rotated(layout, rope, q0, 0);
    let rq1 = rotated(layout, rope, q1, 0);
    let rk0 = rotated(layout, rope, k0, 0);
    let rk1 = rotated(layout, rope, k1, 0);
    keep_repeated(same, rk0, rk1, groups);
    keep_repeated(same, v0, v1, groups);
    lemma_repeated_shape(rk1, groups);
    lemma_repeated_shape(v1, groups);
    lemma_repeated_shape(v0, groups);
    keep_attention(
        same,
        (rq0, rq1),
        (repeated_heads(rk0, groups), repeated_heads(rk1, groups)),
        (repeated_heads(v0, groups), repeated_heads(v1, groups)),
        mask_term(sequence, sequence, 0),
    );
    lemma_attention_shape(
        rq0,
        repeated_heads(rk0, groups),
        repeated_heads(v0, groups),
        mask_term(sequence, sequence, 0),
    );
}

proof fn keep_norm(same: spec_fn(Term, Term) -> bool, parameter: Parameter, a: Term, b: Term)
    requires
        interchange(same),
        same(a, b),
    ensures
        same(norm_term(parameter, a), norm_term(parameter, b)),
{
    keep(same, Op::Norm(parameter, (a, b)), dims_of(a));
}

proof fn keep_sum(same: spec_fn(Term, Term) -> bool, x: (Term, Term), y: (Term, Term))
    requires
        interchange(same),
        same(x.0, x.1),
        same(y.0, y.1),
    ensures
        same(sum_term(x.0, y.0), sum_term(x.1, y.1)),
{
    keep(same, Op::Add(x, y), dims_of(x.0));
}

/// A packed feed-forward block computes what the block computes.
pub proof fn law_packed_feed_forward_matches(
    same: spec_fn(Term, Term) -> bool,
    feed_forward: LlamaFeedForward,
    a: Term,
    b: Term,
)
    requires
        interchange(same),
        feed_forward.wf(),
        2 * feed_forward.gate_proj.outputs <= usize::MAX,
        same(a, b),
        ({
            let packed = PackedLlamaFeedForward::packing(feed_forward);
            let gate_up = Parameter::PackedGateUp(packed.layer);
            let outputs = packed.gate_up.outputs;
            &&& column_of(
                same,
                gate_up,
                packed.gate_span(),
                outputs,
                Parameter::Gate(packed.layer),
                a,
            )
            &&& column_of(
                same,
                gate_up,
                packed.up_span(),
                outputs,
                Parameter::Up(packed.layer),
                a,
            )
        }),
    ensures
        same(
            PackedLlamaFeedForward::packing(feed_forward).result(a),
            feed_forward.result(b),
        ),
{
    let packed = PackedLlamaFeedForward::packing(feed_forward);
    let layer = packed.layer;
    let width = feed_forward.gate_proj.outputs;
    let gate_up = Parameter::PackedGateUp(layer);
    keep_project(same, Parameter::Gate(layer), a, b, width);
    keep_project(same, Parameter::Up(layer), a, b, width);
    let gate_a = part_term(gate_up, packed.gate_span(), a, packed.gate_up.outputs);
    let up_a = part_term(gate_up, packed.up_span(), a, packed.gate_up.outputs);
    let middle_gate = project_term(Parameter::Gate(layer), a, width);
    let middle_up = project_term(Parameter::Up(layer), a, width);
    let gate_b = project_term(Parameter::Gate(layer), b, width);
    let up_b = project_term(Parameter::Up(layer), b, width);
    assert(same(gate_a, middle_gate) && same(middle_gate, gate_b));
    assert(same(up_a, middle_up) && same(middle_up, up_b));
    assert(same(gate_a, gate_b) && same(up_a, up_b));
    keep(same, Op::Silu((gate_a, gate_b)), dims_of(gate_a));
    let active_a = value(Op::Silu(gate_a), dims_of(gate_a));
    let active_b = value(Op::Silu(gate_b), dims_of(gate_b));
    assert(same(active_a, active_b));
    keep(same, Op::Multiply((active_a, active_b), (up_a, up_b)), dims_of(gate_a));
    assert(same(gated(gate_a, up_a), gated(gate_b, up_b)));
    keep_project(
        same,
        Parameter::Down(layer),
        gated(gate_a, up_a),
        gated(gate_b, up_b),
        feed_forward.down_proj.outputs,
    );
}

/// What follows attention in a packed layer matches what follows it in the layer.
proof fn lemma_completed(
    same: spec_fn(Term, Term) -> bool,
    layer: LlamaDecoderLayer,
    input: (Term, Term),
    attention: (Term, Term),
)
    requires
        interchange(same),
        layer.wf(),
        layer.packs(),
        same(input.0, input.1),
        same(attention.0, attention.1),
        forall|t: Term| #[trigger] unpacks(same, PackedLlamaDecoderLayer::packing(layer), t),
    ensures
        same(
            PackedLlamaDecoderLayer::packing(layer).completed(input.0, attention.0),
            layer.completed(input.1, attention.1),
        ),
{
    let packed = PackedLlamaDecoderLayer::packing(layer);
    let parameter = Parameter::PostNorm(layer.self_attn.layer);
    keep_sum(same, input, attention);
    let hidden = (sum_term(input.0, attention.0), sum_term(input.1, attention.1));
    keep_norm(same, parameter, hidden.0, hidden.1);
    let normalized = (norm_term(parameter, hidden.0), norm_term(parameter, hidden.1));
    assert(unpacks(same, packed, normalized.0));
    law_packed_feed_forward_matches(same, layer.mlp, normalized.0, normalized.1);
    keep_sum(
        same,
        hidden,
        (packed.mlp.result(normalized.0), layer.mlp.result(normalized.1)),
    );
}

/// A packed layer computes what the layer computes.
pub proof fn law_packed_layer_matches(
    same: spec_fn(Term, Term) -> bool,
    layer: LlamaDecoderLayer,
    a: Term,
    b: Term,
)
    requires
        interchange(same),
        layer.wf(),
        layer.packs(),
        same(a, b),
        dims_of(a).len() == 3,
        forall|t: Term| #[trigger] unpacks(same, PackedLlamaDecoderLayer::packing(layer), t),
    ensures
        same(
            PackedLlamaDecoderLayer::packing(layer).result(
                a,
                Some(mask_term(dims_of(a)[1], dims_of(a)[1], 0)),
            ),
            layer.result(b),
        ),
{
    let packed = PackedLlamaDecoderLayer::packing(layer);
    let parameter = Parameter::InputNorm(layer.self_attn.layer);
    keep_norm(same, parameter, a, b);
    assert(unpacks(same, packed, norm_term(parameter, a)));
    law_packed_attention_matches(
        same,
        layer.self_attn,
        norm_term(parameter, a),
        norm_term(parameter, b),
    );
    let mask = Some(mask_term(dims_of(a)[1], dims_of(a)[1], 0));
    lemma_completed(
        same,
        layer,
        (a, b),
        (
            packed.self_attn.result(norm_term(parameter, a), mask),
            layer.self_attn.result(norm_term(parameter, b)),
        ),
    );
}

/// Layers keep the shape of their input.
proof fn lemma_through_shape(layers: Seq<LlamaDecoderLayer>, t: Term, n: int)
    requires
        n <= layers.len(),
    ensures
        dims_of(through(layers, t, n)) == dims_of(t),
    decreases n,
{
    if n > 0 {
        lemma_through_shape(layers, t, n - 1);
    }
}

proof fn lemma_packed_through(
    same: spec_fn(Term, Term) -> bool,
    model: LlamaForCausalLm,
    packed: PackedLlamaForCausalLm,
    t: Term,
    n: int,
)
    requires
        interchange(same),
        model.wf(),
        packed.packs_of(model),
        forall|i: int| 0 <= i < model.layers@.len() ==> (#[trigger] model.layers@[i]).packs(),
        forall|i: int, u: Term|
            0 <= i < packed.layers@.len() ==> #[trigger] unpacks(same, packed.layers@[i], u),
        dims_of(t).len() == 3,
        dims_of(t)[1] < FLASH_ATTENTION_MIN_SEQUENCE,
        0 <= n <= model.layers@.len(),
    ensures
        same(
            packed_through(packed.layers@, t, mask_for(dims_of(t)[1]), n),
            through(model.layers@, t, n),
        ),
    decreases n,
{
    if n > 0 {
        lemma_packed_through(same, model, packed, t, n - 1);
        lemma_through_shape(model.layers@, t, n - 1);
        let layer = model.layers@[n - 1];
        assert(model.fitting_layer(layer, n - 1));
        assert(packed.layers@[n - 1] == PackedLlamaDecoderLayer::packing(layer));
        assert forall|u: Term| #[trigger]
            unpacks(same, PackedLlamaDecoderLayer::packing(layer), u) by {
            assert(unpacks(same, packed.layers@[n - 1], u));
        }
        law_packed_layer_matches(
            same,
            layer,
            packed_through(packed.layers@, t, mask_for(dims_of(t)[1]), n - 1),
            through(model.layers@, t, n - 1),
        );
    } else {
        assert(same(t, t));
    }
}

/// A packed model computes what the model computes, for every sequence that needs a mask.
pub proof fn law_packed_model_matches(
    same: spec_fn(Term, Term) -> bool,
    model: LlamaForCausalLm,
    packed: PackedLlamaForCausalLm,
    tokens: Term,
)
    requires
        interchange(same),
        model.wf(),
        packed.packs_of(model),
        forall|i: int| 0 <= i < model.layers@.len() ==> (#[trigger] model.layers@[i]).packs(),
        forall|i: int, u: Term|
            0 <= i < packed.layers@.len() ==> #[trigger] unpacks(same, packed.layers@[i], u),
        dims_of(tokens).len() == 2,
        dims_of(tokens)[1] < FLASH_ATTENTION_MIN_SEQUENCE,
    ensures
        same(packed.masked_result(tokens, mask_for(dims_of(tokens)[1])), model.result(tokens)),
{
    let t = embedded(tokens, model.embed_tokens.width);
    let n = model.layers@.len() as int;
    lemma_packed_through(same, model, packed, t, n);
    let a = packed_through(packed.layers@, t, mask_for(dims_of(t)[1]), n);
    let b = through(model.layers@, t, n);
    keep_norm(same, Parameter::FinalNorm, a, b);
    keep_project(
        same,
        Parameter::Head,
        norm_term(Parameter::FinalNorm, a),
        norm_term(Parameter::FinalNorm, b),
        model.lm_head.outputs,
    );
}

proof fn keep_appended(
    same: spec_fn(Term, Term) -> bool,
    cache: LlamaLayerCache,
    op: Op<Term>,
    a: Term,
    b: Term,
)
    requires
        interchange(same),
        same(a, b),
    ensures
        same(cache.appended(op, a), cache.appended(op, b)),
{
    let held = cache.held(op);
    assert(same(held, held));
    if cache.stored is Some {
        keep(
            same,
            Op::Cat((held, held), (a, b), 2),
            dims_of(a).update(2, (cache.storage_capacity + dims_of(a)[2]) as usize),
        );
    }
}

/// Packed cached attention computes what cached attention computes.
pub proof fn law_packed_cached_attention_matches(
    same: spec_fn(Term, Term) -> bool,
    attention: LlamaAttention,
    cache: LlamaLayerCache,
    a: Term,
    b: Term,
)
    requires
        interchange(same),
        attention.wf(),
        (attention.num_query_heads + 2 * attention.num_kv_heads) * attention.head_dimension
            <= usize::MAX,
        same(a, b),
        dims_of(a).len() == 3,
        cache.accepts(attention.key_dims(dims_of(a))),
        cache.storage_capacity == cache.sequence_length,
        ({
            let packed = PackedLlamaAttention::packing(attention);
            let qkv = Parameter::PackedQkv(packed.layer);
            let outputs = packed.qkv.outputs;
            &&& column_of(
                same,
                qkv,
                packed.query_span(),
                outputs,
                Parameter::Query(packed.layer),
                a,
            )
            &&& column_of(same, qkv, packed.key_span(), outputs, Parameter::Key(packed.layer), a)
            &&& column_of(
                same,
                qkv,
                packed.value_span(),
                outputs,
                Parameter::Value(packed.layer),
                a,
            )
        }),
    ensures
        same(
            PackedLlamaAttention::packing(attention).cached_result(a, cache),
            attention.cached_result(b, cache),
        ),
{
    let packed = PackedLlamaAttention::packing(attention);
    let heads = attention.num_query_heads;
    let kv = attention.num_kv_heads;
    let width = attention.head_dimension;
    let layout = attention.rotary_layout;
    let rope = attention.rope;
    let position = cache.sequence_length;
    let groups = packed.groups();
    lemma_groups(heads, kv, width);
    assert((heads + 2 * kv) * width == heads * width + 2 * (kv * width)) by (nonlinear_arith);
    keep_project(same, Parameter::Query(packed.layer), a, b, attention.q_proj.outputs);
    keep_project(same, Parameter::Key(packed.layer), a, b, attention.k_proj.outputs);
    keep_project(same, Parameter::Value(packed.layer), a, b, attention.v_proj.outputs);
    let all = packed.packed(a);
    let query_a = features_term(all, packed.query_span());
    let key_a = features_term(all, packed.key_span());
    let value_a = features_term(all, packed.value_span());
    let query_b = project_term(Parameter::Query(packed.layer), b, attention.q_proj.outputs);
    let key_b = project_term(Parameter::Key(packed.layer), b, attention.k_proj.outputs);
    let value_b = project_term(Parameter::Value(packed.layer), b, attention.v_proj.outputs);
    let middle_q = project_term(Parameter::Query(packed.layer), a, attention.q_proj.outputs);
    let middle_k = project_term(Parameter::Key(packed.layer), a, attention.k_proj.outputs);
    let middle_v = project_term(Parameter::Value(packed.layer), a, attention.v_proj.outputs);
    assert(same(query_a, middle_q) && same(middle_q, query_b));
    assert(same(key_a, middle_k) && same(middle_k, key_b));
    assert(same(value_a, middle_v) && same(middle_v, value_b));
    let p = packed.cached_projected(a, position);
    let s = attention.projected(b, position);
    keep_heads(same, query_a, query_b, heads, width);
    keep_heads(same, key_a, key_b, kv, width);
    keep_heads(same, value_a, value_b, kv, width);
    let query_heads = (heads_of(query_a, heads, width), heads_of(query_b, heads, width));
    let key_heads = (heads_of(key_a, kv, width), heads_of(key_b, kv, width));
    keep_rotated(same, layout, rope, query_heads.0, query_heads.1, position);
    keep_rotated(same, layout, rope, key_heads.0, key_heads.1, position);
    lemma_rotated_shape(layout, rope, query_heads.1, position);
    lemma_rotated_shape(layout, rope, key_heads.1, position);
    assert(dims_of(s.key) =~= attention.key_dims(dims_of(a)));
    assert(dims_of(s.value) =~= attention.key_dims(dims_of(a)));
    let key_op = Op::CachedKey(packed.layer);
    let value_op = Op::CachedValue(packed.layer);
    keep_appended(same, cache, key_op, p.key, s.key);
    keep_appended(same, cache, value_op, p.value, s.value);
    let keys = (cache.appended(key_op, p.key), cache.appended(key_op, s.key));
    let values = (cache.appended(value_op, p.value), cache.appended(value_op, s.value));
    keep_repeated(same, keys.0, keys.1, groups);
    keep_repeated(same, values.0, values.1, groups);
    lemma_repeated_shape(keys.1, groups);
    lemma_repeated_shape(values.1, groups);
    let mask = mask_term(
        dims_of(p.query)[2],
        dims_of(repeated_heads(keys.0, groups))[2],
        position,
    );
    keep_attention(
        same,
        (p.query, s.query),
        (repeated_heads(keys.0, groups), repeated_heads(keys.1, groups)),
        (repeated_heads(values.0, groups), repeated_heads(values.1, groups)),
        mask,
    );
    let context_a = packed.context(p.query, keys.0, values.0, position);
    let context_b = attended(
        s.query,
        repeated_heads(keys.1, groups),
        repeated_heads(values.1, groups),
        position,
    );
    assert(same(context_a, context_b));
    lemma_attention_shape(
        s.query,
        repeated_heads(keys.1, groups),
        repeated_heads(values.1, groups),
        mask,
    );
    keep_joined(same, context_a, context_b);
    keep_project(
        same,
        Parameter::Output(packed.layer),
        merged(context_a),
        joined(context_b),
        attention.o_proj.outputs,
    );
}

/// Layers keep the shape of their input, with caches too.
proof fn lemma_cached_shape(
    layers: Seq<LlamaDecoderLayer>,
    caches: Seq<LlamaLayerCache>,
    t: Term,
    n: int,
)
    ensures
        dims_of(through_cached(layers, caches, t, n)) == dims_of(t),
    decreases n,
{
    if n > 0 {
        lemma_cached_shape(layers, caches, t, n - 1);
    }
}

proof fn lemma_packed_cached_through(
    same: spec_fn(Term, Term) -> bool,
    model: LlamaForCausalLm,
    packed: PackedLlamaForCausalLm,
    caches: Seq<LlamaLayerCache>,
    tokens: Term,
    n: int,
)
    requires
        interchange(same),
        model.wf(),
        packed.packs_of(model),
        forall|i: int| 0 <= i < model.layers@.len() ==> (#[trigger] model.layers@[i]).packs(),
        forall|i: int, u: Term|
            0 <= i < packed.layers@.len() ==> #[trigger] unpacks(same, packed.layers@[i], u),
        dims_of(tokens).len() == 2,
        caches.len() == model.layers@.len(),
        forall|i: int|
            0 <= i < caches.len() ==> model.layer_takes(
                #[trigger] caches[i],
                i,
                dims_of(tokens),
            ),
        0 <= n <= model.layers@.len(),
    ensures
        ({
            let t = embedded(tokens, model.embed_tokens.width);
            same(
                packed_cached_through(packed.layers@, caches, t, n),
                through_cached(model.layers@, caches, t, n),
            )
        }),
    decreases n,
{
    let t = embedded(tokens, model.embed_tokens.width);
    if n > 0 {
        lemma_packed_cached_through(same, model, packed, caches, tokens, n - 1);
        lemma_cached_shape(model.layers@, caches, t, n - 1);
        let layer = model.layers@[n - 1];
        let cache = caches[n - 1];
        assert(model.fitting_layer(layer, n - 1));
        assert(model.layer_takes(cache, n - 1, dims_of(tokens)));
        let light = PackedLlamaDecoderLayer::packing(layer);
        assert(packed.layers@[n - 1] == light);
        assert forall|u: Term| #[trigger] unpacks(same, light, u) by {
            assert(unpacks(same, packed.layers@[n - 1], u));
        }
        let a = packed_cached_through(packed.layers@, caches, t, n - 1);
        let b = through_cached(model.layers@, caches, t, n - 1);
        let parameter = Parameter::InputNorm(layer.self_attn.layer);
        keep_norm(same, parameter, a, b);
        assert(unpacks(same, light, norm_term(parameter, a)));
        law_packed_cached_attention_matches(
            same,
            layer.self_attn,
            cache,
            norm_term(parameter, a),
            norm_term(parameter, b),
        );
        lemma_completed(
            same,
            layer,
            (a, b),
            (
                light.self_attn.cached_result(norm_term(parameter, a), cache),
                layer.self_attn.cached_result(norm_term(parameter, b), cache),
            ),
        );
    } else {
        assert(same(t, t));
    }
}

/// Cached decoding with a packed model gives the logits that the model gives.
pub proof fn law_packed_decoding_matches(
    same: spec_fn(Term, Term) -> bool,
    model: LlamaForCausalLm,
    packed: PackedLlamaForCausalLm,
    caches: Seq<LlamaLayerCache>,
    tokens: Term,
)
    requires
        interchange(same),
        model.wf(),
        packed.packs_of(model),
        forall|i: int| 0 <= i < model.layers@.len() ==> (#[trigger] model.layers@[i]).packs(),
        forall|i: int, u: Term|
            0 <= i < packed.layers@.len() ==> #[trigger] unpacks(same, packed.layers@[i], u),
        dims_of(tokens).len() == 2,
        dims_of(tokens)[1] > 0,
        caches.len() == model.layers@.len(),
        forall|i: int|
            0 <= i < caches.len() ==> model.layer_takes(
                #[trigger] caches[i],
                i,
                dims_of(tokens),
            ),
    ensures
        same(
            packed.logits(
                last_position(
                    packed_cached_through(
                        packed.layers@,
                        caches,
                        embedded(tokens, packed.embed_tokens.width),
                        packed.layers@.len() as int,
                    ),
                ),
            ),
            model.logits(last_position(model.cached_hidden(tokens, caches))),
        ),
{
    let t = embedded(tokens, model.embed_tokens.width);
    let n = model.layers@.len() as int;
    lemma_packed_cached_through(same, model, packed, caches, tokens, n);
    let a = packed_cached_through(packed.layers@, caches, t, n);
    let b = model.cached_hidden(tokens, caches);
    let sequence = dims_of(a)[1];
    keep_slice(same, a, b, 1, (sequence - 1) as usize, sequence);
    keep_norm(same, Parameter::FinalNorm, last_position(a), last_position(b));
    keep_project(
        same,
        Parameter::Head,
        norm_term(Parameter::FinalNorm, last_position(a)),
        norm_term(Parameter::FinalNorm, last_position(b)),
        model.lm_head.outputs,
    );
}

/// A layer's cache holds nothing.
pub open spec fn holds_nothing(cache: LlamaLayerCache) -> bool {
    cache.stored is None && cache.sequence_length == 0
}

proof fn lemma_empty_through(
    layers: Seq<LlamaDecoderLayer>,
    caches: Seq<LlamaLayerCache>,
    t: Term,
    n: int,
)
    requires
        n <= layers.len(),
        layers.len() == caches.len(),
        forall|i: int| 0 <= i < caches.len() ==> holds_nothing(#[trigger] caches[i]),
    ensures
        through_cached(layers, caches, t, n) == through(layers, t, n),
    decreases n,
{
    if n > 0 {
        lemma_empty_through(layers, caches, t, n - 1);
        let layer = layers[n - 1];
        assert(holds_nothing(caches[n - 1]));
        let input = layer.normalized(through(layers, t, n - 1));
        assert(layer.self_attn.cached_result(input, caches[n - 1]) == layer.self_attn.result(
            input,
        ));
    }
}

/// A cached pass from the beginning is the full pass: with nothing in the cache it performs the
/// same operations, and gives the same logits.
pub proof fn law_prefill_is_the_full_pass(
    model: LlamaForCausalLm,
    caches: Seq<LlamaLayerCache>,
    tokens: Term,
)
    requires
        caches.len() == model.layers@.len(),
        forall|i: int| 0 <= i < caches.len() ==> holds_nothing(#[trigger] caches[i]),
    ensures
        model.logits(model.cached_hidden(tokens, caches)) == model.result(tokens),
{
    lemma_empty_through(
        model.layers@,
        caches,
        embedded(tokens, model.embed_tokens.width),
        model.layers@.len() as int,
    );
}

/// Norms and the head work on each position by itself.
pub open spec fn works_by_position(
    same: spec_fn(Term, Term) -> bool,
    t: Term,
    vocabulary: usize,
) -> bool {
    &&& same(
        norm_term(Parameter::FinalNorm, last_position(t)),
        last_position(norm_term(Parameter::FinalNorm, t)),
    )
    &&& same(
        project_term(Parameter::Head, last_position(t), vocabulary),
        last_position(project_term(Parameter::Head, t, vocabulary)),
    )
}

/// Projecting only the last position gives the last row of the logits of all positions.
pub proof fn law_last_logits_are_the_last_row(
    same: spec_fn(Term, Term) -> bool,
    model: LlamaForCausalLm,
    hidden: Term,
)
    requires
        interchange(same),
        forall|t: Term| #[trigger] works_by_position(same, t, model.lm_head.outputs),
    ensures
        same(model.logits(last_position(hidden)), last_position(model.logits(hidden))),
{
    let normalized = norm_term(Parameter::FinalNorm, hidden);
    assert(works_by_position(same, hidden, model.lm_head.outputs));
    assert(works_by_position(same, normalized, model.lm_head.outputs));
    keep_project(
        same,
        Parameter::Head,
        norm_term(Parameter::FinalNorm, last_position(hidden)),
        last_position(normalized),
        model.lm_head.outputs,
    );
}

} // verus!
