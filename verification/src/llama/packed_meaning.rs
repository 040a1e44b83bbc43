//! What a decoder with packed projections and dedicated kernels computes, element by element: the
//! same as the decoder that it was packed from.

use crate::llama::attention::{attended, mask_term, masked_attention, repeated_heads, RotaryLayout};
use crate::llama::cache::{
    dims_of, law_growth_makes_room, slice_term, value, LlamaKvCache, LlamaLayerCache, StoredShape,
};
use crate::llama::entries::{entry, rotary_table};
use crate::llama::heads::RotaryEncoding;
use crate::llama::meaning::{
    at_3, at_4, attend, attention_of, feed_forward_of, features, head_context, head_of, head_vector,
    head_vectors, holds_all, keys_of, layer_of_vectors, lemma_context, lemma_inside_3,
    lemma_looked_up, lemma_mapped, lemma_normed, lemma_output, lemma_projects, lemma_remembered,
    lemma_shared, lemma_summed, lemma_total_same, logits_of, looked_up, mapped, normed, nothing,
    past_of, projects, query_of, remembers, rotates_by, runs_on, shaped, stacked, summed, total,
    turned, values_of, vectors, Device, Past,
};
use crate::llama::model::{embedded, last_position, LlamaForCausalLm};
use crate::llama::packed::{
    columns_term, features_term, part_term, PackedLlamaAttention, PackedLlamaFeedForward,
    DECODE_HEAD_DIMENSION,
};
use crate::llama::packed_model::{
    kernel_through, mask_for, packed_cached_through, packed_through, PackedLlamaDecoderLayer,
    PackedLlamaForCausalLm,
};
use crate::llama::program::{Op, Parameter, Span, Term};
use crate::llama::standard::{
    gated, lemma_groups, norm_term, sum_term, LlamaAttention, LlamaDecoderLayer,
};
use crate::llama::steps::{project_term, same_term};
use vstd::prelude::*;

verus! {

/// `open` also says of the fused operations and the dedicated kernels what the device computes with
/// them.
pub open spec fn runs_kernels(
    device: Device,
    rope: RotaryEncoding,
    open: spec_fn(Term, Seq<int>) -> int,
) -> bool {
    &&& runs_on(device, rope, open)
    &&& forall|p: Parameter, span: Span, x: Term, dims: Seq<usize>, b: int, s: int, o: int|
        #[trigger] open(value(Op::ProjectColumns(p, span, x), dims), at_3(b, s, o)) == (
        device.bias)(p, span.start + o) + total(
            |k: int| (device.weight)(p, span.start + o, k) * features(x, b, s, open)[k],
            dims_of(x)[2] as int,
        )
    &&& forall|q: Term, k: Term, v: Term, dims: Seq<usize>, b: int, h: int, i: int, j: int|
        #[trigger] open(value(Op::FlashAttention(q, k, v), dims), at_4(b, h, i, j)) == attend(
            device,
            head_vector(q, b, h, i, open),
            head_vectors(k, b, h, open),
            head_vectors(v, b, h, open),
            i,
        )[j]
    &&& forall|p: Parameter, x: Term, dims: Seq<usize>, b: int, s: int, k: int| #[trigger]
        open(value(Op::NormKernel(p, x), dims), at_3(b, s, k)) == (device.gain)(p, k) * (
        device.normalize)(features(x, b, s, open))[k]
    &&& forall|p: Parameter, x: Term, y: Term, dims: Seq<usize>, at: Seq<int>| #[trigger]
        open(value(Op::FusedSum(p, x, y), dims), at) == entry(x, at, open) + entry(y, at, open)
    &&& forall|
        p: Parameter,
        x: Term,
        y: Term,
        inner: Seq<usize>,
        dims: Seq<usize>,
        b: int,
        s: int,
        k: int,
    | #[trigger]
        open(
            value(Op::FusedNorm(value(Op::FusedSum(p, x, y), inner)), dims),
            at_3(b, s, k),
        ) == (device.gain)(p, k) * (device.normalize)(
            features(value(Op::FusedSum(p, x, y), inner), b, s, open),
        )[k]
    &&& forall|x: Term, dims: Seq<usize>, b: int, s: int, k: int| #[trigger]
        open(value(Op::Swiglu(x), dims), at_3(b, s, k)) == (device.silu)(
            features(x, b, s, open)[k],
        ) * features(x, b, s, open)[dims_of(x)[2] as int / 2 + k]
    &&& forall|projected: Term, key: Term, val: Term, position: usize, start: usize|
        runs_fused(device, rope, open, #[trigger] fused(rope, projected, key, val, position, start))
    &&& forall|
        q: Term,
        k: Term,
        v: Term,
        end: usize,
        dims: Seq<usize>,
        b: int,
        h: int,
        j: int,
    | #[trigger]
        open(value(Op::DecodeAttention(q, k, v, end), dims), at_4(b, h, 0, j)) == attend(
            device,
            head_vector(q, b, h, 0, open),
            head_vectors(k, b, h / (dims_of(q)[1] as int / dims_of(k)[1] as int), open).take(
                end as int,
            ),
            head_vectors(v, b, h / (dims_of(q)[1] as int / dims_of(k)[1] as int), open).take(
                end as int,
            ),
            end - 1,
        )[j]
}

/// The kernel that takes a packed projection apart, with the table of a rotary encoding.
pub open spec fn fused(
    rope: RotaryEncoding,
    projected: Term,
    key: Term,
    val: Term,
    position: usize,
    start: usize,
) -> Op<Term> {
    Op::FusedQuery {
        projected,
        table: rotary_table(rope.positions, rope.width),
        key,
        value: val,
        position,
        start,
    }
}

/// The kernel that takes a packed projection apart returns the queries, rotated from a position on,
/// and writes the keys, rotated as well, and the values into storage from a place on. The features
/// of a projection are those of the query heads, then those of the key heads, then those of the
/// value heads.
pub open spec fn runs_fused(
    device: Device,
    rope: RotaryEncoding,
    open: spec_fn(Term, Seq<int>) -> int,
    op: Op<Term>,
) -> bool {
    op matches Op::FusedQuery { projected, table, key, value: val, position, start } ==> {
        let width = rope.width as int;
        let layout = RotaryLayout::HalfSplit;
        &&& forall|dims: Seq<usize>, b: int, h: int, s: int, j: int| #[trigger]
            open(value(op, dims), at_4(b, h, s, j)) == turned(
                device,
                layout,
                head_of(features(projected, b, s, open), h, width),
                position + s,
            )[j]
        &&& forall|inner: Seq<usize>, dims: Seq<usize>, b: int, h: int, m: int, j: int| #[trigger]
            open(value(Op::FusedKey(value(op, inner), key), dims), at_4(b, h, m, j)) == if start
                <= m < start + inner[2] {
                turned(
                    device,
                    layout,
                    head_of(features(projected, b, m - start, open), inner[1] + h, width),
                    position + (m - start),
                )[j]
            } else {
                entry(key, at_4(b, h, m, j), open)
            }
        &&& forall|inner: Seq<usize>, dims: Seq<usize>, b: int, h: int, m: int, j: int| #[trigger]
            open(value(Op::FusedValue(value(op, inner), val), dims), at_4(b, h, m, j)) == if start
                <= m < start + inner[2] {
                head_of(
                    features(projected, b, m - start, open),
                    inner[1] + dims_of(val)[1] + h,
                    width,
                )[j]
            } else {
                entry(val, at_4(b, h, m, j), open)
            }
    }
}

/// The outputs of a packed parameter from one on are those of a parameter on its own.
pub open spec fn takes_up(
    device: Device,
    packed: Parameter,
    from: int,
    single: Parameter,
    outputs: int,
) -> bool {
    &&& forall|o: int, k: int|
        0 <= o < outputs ==> (device.weight)(packed, from + o, k) == #[trigger] (device.weight)(
            single,
            o,
            k,
        )
    &&& forall|o: int|
        0 <= o < outputs ==> (device.bias)(packed, from + o) == #[trigger] (device.bias)(single, o)
}

/// The packed parameters of a layer hold its parameters one behind the other: queries, keys and
/// values, and gate and up.
pub open spec fn packs_parameters(device: Device, layer: LlamaDecoderLayer) -> bool {
    let attention = layer.self_attn;
    let mlp = layer.mlp;
    let q = attention.q_proj.outputs as int;
    let k = attention.k_proj.outputs as int;
    let v = attention.v_proj.outputs as int;
    let qkv = Parameter::PackedQkv(attention.layer);
    let gate_up = Parameter::PackedGateUp(mlp.layer);
    &&& takes_up(device, qkv, 0, Parameter::Query(attention.layer), q)
    &&& takes_up(device, qkv, q, Parameter::Key(attention.layer), k)
    &&& takes_up(device, qkv, q + k, Parameter::Value(attention.layer), v)
    &&& takes_up(
        device,
        gate_up,
        0,
        Parameter::Gate(mlp.layer),
        mlp.gate_proj.outputs as int,
    )
    &&& takes_up(
        device,
        gate_up,
        mlp.gate_proj.outputs as int,
        Parameter::Up(mlp.layer),
        mlp.up_proj.outputs as int,
    )
}

/// A part of what a packed parameter maps a vector to is what the parameter of that part maps it
/// to.
proof fn lemma_part_of_map(
    device: Device,
    packed: Parameter,
    from: int,
    single: Parameter,
    part: int,
    outputs: nat,
    x: Seq<int>,
)
    requires
        takes_up(device, packed, from, single, part),
        0 <= from,
        0 <= part,
        from + part <= outputs,
    ensures
        mapped(device, packed, outputs, x).subrange(from, from + part) == mapped(
            device,
            single,
            part as nat,
            x,
        ),
{
    let whole = mapped(device, packed, outputs, x);
    let own = mapped(device, single, part as nat, x);
    assert forall|o: int| 0 <= o < part implies whole[from + o] == own[o] by {
        lemma_total_same(
            |k: int| (device.weight)(packed, from + o, k) * x[k],
            |k: int| (device.weight)(single, o, k) * x[k],
            x.len() as int,
        );
        assert((device.bias)(packed, from + o) == (device.bias)(single, o));
    }
    assert(whole.subrange(from, from + part) =~= own);
}

/// Part of a packed projection, vector by vector, whether it is sliced or projected on its own.
proof fn lemma_part(
    device: Device,
    rope: RotaryEncoding,
    open: spec_fn(Term, Seq<int>) -> int,
    packed: Parameter,
    span: Span,
    single: Parameter,
    t: Term,
    outputs: usize,
    b: int,
    s: int,
)
    requires
        runs_kernels(device, rope, open),
        span.start <= span.end <= outputs,
        takes_up(device, packed, span.start as int, single, span.end - span.start),
    ensures
        ({
            let part = span.end - span.start;
            let own = mapped(device, single, part as nat, features(t, b, s, open));
            let sliced = features_term(project_term(packed, t, outputs), span);
            let dims = seq![dims_of(t)[0], dims_of(t)[1], part as usize];
            &&& features(sliced, b, s, open) == own
            &&& features(part_term(packed, span, t, outputs), b, s, open) == own
            &&& dims_of(sliced) == dims
            &&& dims_of(part_term(packed, span, t, outputs)) == dims
        }),
{
    let part = span.end - span.start;
    let x = features(t, b, s, open);
    let own = mapped(device, single, part as nat, x);
    let all = project_term(packed, t, outputs);
    let whole = mapped(device, packed, outputs as nat, x);
    let sliced = features_term(all, span);
    let alone = columns_term(packed, span, t);
    let dims = seq![dims_of(t)[0], dims_of(t)[1], part as usize];
    lemma_mapped(device, rope, open, packed, t, outputs, b, s);
    lemma_part_of_map(device, packed, span.start as int, single, part, outputs as nat, x);
    assert(dims_of(sliced) =~= dims);
    assert(dims_of(alone) =~= dims);
    assert forall|o: int| 0 <= o < part implies entry(sliced, at_3(b, s, o), open) == own[o]
        && entry(alone, at_3(b, s, o), open) == own[o] by {
        assert(whole.subrange(span.start as int, span.end as int)[o] == whole[span.start + o]);
        assert(at_3(b, s, o).update(2, o + span.start) =~= at_3(b, s, span.start + o));
        assert(features(all, b, s, open)[span.start + o] == entry(
            all,
            at_3(b, s, span.start + o),
            open,
        ));
        assert(entry(alone, at_3(b, s, o), open) == open(
            value(Op::ProjectColumns(packed, span, t), dims_of(alone)),
            at_3(b, s, o),
        ));
        lemma_total_same(
            |k: int| (device.weight)(packed, span.start + o, k) * features(t, b, s, open)[k],
            |k: int| (device.weight)(packed, span.start + o, k) * x[k],
            dims_of(t)[2] as int,
        );
    }
    assert(features(sliced, b, s, open) =~= own);
    assert(features(alone, b, s, open) =~= own);
}

/// The columns of a packed projection.
proof fn lemma_columns(layer: LlamaDecoderLayer)
    requires
        layer.wf(),
        layer.packs(),
    ensures
        ({
            let attention = layer.self_attn;
            let packed = PackedLlamaAttention::packing(attention);
            let q = attention.q_proj.outputs;
            let k = attention.k_proj.outputs;
            let v = attention.v_proj.outputs;
            &&& packed.wf()
            &&& q + k + v == packed.qkv.outputs
            &&& packed.query_span() == (Span { start: 0, end: q })
            &&& packed.key_span() == (Span { start: q, end: (q + k) as usize })
            &&& packed.value_span() == (Span { start: (q + k) as usize, end: packed.qkv.outputs })
        }),
{
    let attention = layer.self_attn;
    let h = attention.num_query_heads as int;
    let g = attention.num_kv_heads as int;
    let w = attention.head_dimension as int;
    assert((h + 2 * g) * w == h * w + 2 * (g * w)) by (nonlinear_arith);
}

/// The queries, keys and values of a packed projection, on their own or out of all of it.
proof fn lemma_packed_projected(
    device: Device,
    open: spec_fn(Term, Seq<int>) -> int,
    layer: LlamaDecoderLayer,
    past: Past,
    input: Term,
    start: usize,
    b: int,
)
    requires
        runs_kernels(device, layer.self_attn.rope, open),
        packs_parameters(device, layer),
        layer.wf(),
        layer.packs(),
        layer.self_attn.rope.width == layer.self_attn.head_dimension,
        start == past.length,
        layer.self_attn.takes(dims_of(input), start),
        0 <= b < dims_of(input)[0],
    ensures
        ({
            let attention = layer.self_attn;
            let packed = PackedLlamaAttention::packing(attention);
            let seen = vectors(input, b, open);
            let sliced = packed.cached_projected(input, start);
            let alone = packed.projected(input);
            &&& shaped(attention, sliced, dims_of(input))
            &&& projects(device, attention, past, seen, sliced, b, open)
            &&& start == 0 ==> shaped(attention, alone, dims_of(input))
            &&& start == 0 ==> projects(device, attention, past, seen, alone, b, open)
        }),
{
    let attention = layer.self_attn;
    let rope = attention.rope;
    let n = attention.layer;
    let packed = PackedLlamaAttention::packing(attention);
    let seen = vectors(input, b, open);
    let parameter = Parameter::PackedQkv(n);
    let outputs = packed.qkv.outputs;
    lemma_columns(layer);
    let all = packed.packed(input);
    let q = packed.query_span();
    let k = packed.key_span();
    let v = packed.value_span();
    lemma_flat(device, open, layer, input, b);
    let query = features_term(all, q);
    let key = features_term(all, k);
    let value = features_term(all, v);
    assert(dims_of(key) =~= dims_of(query).update(2, attention.k_proj.outputs));
    assert(dims_of(value) =~= dims_of(query).update(2, attention.v_proj.outputs));
    lemma_projects(device, open, attention, past, seen, query, key, value, start, b);
    let own_query = part_term(parameter, q, input, outputs);
    let own_key = part_term(parameter, k, input, outputs);
    let own_value = part_term(parameter, v, input, outputs);
    assert(dims_of(own_key) =~= dims_of(own_query).update(2, attention.k_proj.outputs));
    assert(dims_of(own_value) =~= dims_of(own_query).update(2, attention.v_proj.outputs));
    lemma_projects(device, open, attention, past, seen, own_query, own_key, own_value, start, b);
}

/// The features of a packed projection, part by part.
proof fn lemma_flat(
    device: Device,
    open: spec_fn(Term, Seq<int>) -> int,
    layer: LlamaDecoderLayer,
    input: Term,
    b: int,
)
    requires
        runs_kernels(device, layer.self_attn.rope, open),
        packs_parameters(device, layer),
        layer.wf(),
        layer.packs(),
        dims_of(input).len() == 3,
    ensures
        ({
            let attention = layer.self_attn;
            let packed = PackedLlamaAttention::packing(attention);
            let n = attention.layer;
            let parameter = Parameter::PackedQkv(n);
            let outputs = packed.qkv.outputs;
            let seen = vectors(input, b, open);
            let all = packed.packed(input);
            let query = features_term(all, packed.query_span());
            let key = features_term(all, packed.key_span());
            let value = features_term(all, packed.value_span());
            let own_query = part_term(parameter, packed.query_span(), input, outputs);
            let own_key = part_term(parameter, packed.key_span(), input, outputs);
            let own_value = part_term(parameter, packed.value_span(), input, outputs);
            let d = dims_of(input);
            let q = attention.q_proj.outputs;
            let k = attention.k_proj.outputs;
            let v = attention.v_proj.outputs;
            &&& dims_of(query) == d.update(2, q)
            &&& dims_of(own_query) == d.update(2, q)
            &&& dims_of(key) == d.update(2, k)
            &&& dims_of(own_key) == d.update(2, k)
            &&& dims_of(value) == d.update(2, v)
            &&& dims_of(own_value) == d.update(2, v)
            &&& forall|s: int|
                0 <= s < seen.len() ==> #[trigger] features(query, b, s, open) == mapped(
                    device,
                    Parameter::Query(n),
                    q as nat,
                    seen[s],
                )
            &&& forall|s: int|
                0 <= s < seen.len() ==> #[trigger] features(own_query, b, s, open) == mapped(
                    device,
                    Parameter::Query(n),
                    q as nat,
                    seen[s],
                )
            &&& forall|s: int|
                0 <= s < seen.len() ==> #[trigger] features(key, b, s, open) == mapped(
                    device,
                    Parameter::Key(n),
                    k as nat,
                    seen[s],
                )
            &&& forall|s: int|
                0 <= s < seen.len() ==> #[trigger] features(own_key, b, s, open) == mapped(
                    device,
                    Parameter::Key(n),
                    k as nat,
                    seen[s],
                )
            &&& forall|s: int|
                0 <= s < seen.len() ==> #[trigger] features(value, b, s, open) == mapped(
                    device,
                    Parameter::Value(n),
                    v as nat,
                    seen[s],
                )
            &&& forall|s: int|
                0 <= s < seen.len() ==> #[trigger] features(own_value, b, s, open) == mapped(
                    device,
                    Parameter::Value(n),
                    v as nat,
                    seen[s],
                )
        }),
{
    let attention = layer.self_attn;
    let packed = PackedLlamaAttention::packing(attention);
    lemma_columns(layer);
    let n = attention.layer;
    let rope = attention.rope;
    let parameter = Parameter::PackedQkv(n);
    let outputs = packed.qkv.outputs;
    let seen = vectors(input, b, open);
    let d = dims_of(input);
    let all = packed.packed(input);
    let q = packed.query_span();
    let k = packed.key_span();
    let v = packed.value_span();
    let query = features_term(all, q);
    let key = features_term(all, k);
    let value = features_term(all, v);
    let own_query = part_term(parameter, q, input, outputs);
    let own_key = part_term(parameter, k, input, outputs);
    let own_value = part_term(parameter, v, input, outputs);
    assert forall|s: int| 0 <= s < seen.len() implies #[trigger] features(query, b, s, open)
        == mapped(device, Parameter::Query(n), attention.q_proj.outputs as nat, seen[s]) && features(
        own_query,
        b,
        s,
        open,
    ) == mapped(device, Parameter::Query(n), attention.q_proj.outputs as nat, seen[s]) by {
        lemma_part(device, rope, open, parameter, q, Parameter::Query(n), input, outputs, b, s);
    }
    assert forall|s: int| 0 <= s < seen.len() implies #[trigger] features(key, b, s, open)
        == mapped(device, Parameter::Key(n), attention.k_proj.outputs as nat, seen[s]) && features(
        own_key,
        b,
        s,
        open,
    ) == mapped(device, Parameter::Key(n), attention.k_proj.outputs as nat, seen[s]) by {
        lemma_part(device, rope, open, parameter, k, Parameter::Key(n), input, outputs, b, s);
    }
    assert forall|s: int| 0 <= s < seen.len() implies #[trigger] features(value, b, s, open)
        == mapped(device, Parameter::Value(n), attention.v_proj.outputs as nat, seen[s]) && features(
        own_value,
        b,
        s,
        open,
    ) == mapped(device, Parameter::Value(n), attention.v_proj.outputs as nat, seen[s]) by {
        lemma_part(device, rope, open, parameter, v, Parameter::Value(n), input, outputs, b, s);
    }
    assert forall|s: int| 0 <= s < seen.len() implies #[trigger] features(own_query, b, s, open)
        == mapped(device, Parameter::Query(n), attention.q_proj.outputs as nat, seen[s]) by {
        assert(features(query, b, s, open).len() >= 0);
    }
    assert forall|s: int| 0 <= s < seen.len() implies #[trigger] features(own_key, b, s, open)
        == mapped(device, Parameter::Key(n), attention.k_proj.outputs as nat, seen[s]) by {
        assert(features(key, b, s, open).len() >= 0);
    }
    assert forall|s: int| 0 <= s < seen.len() implies #[trigger] features(own_value, b, s, open)
        == mapped(device, Parameter::Value(n), attention.v_proj.outputs as nat, seen[s]) by {
        assert(features(value, b, s, open).len() >= 0);
    }
    lemma_part(device, rope, open, parameter, q, Parameter::Query(n), input, outputs, b, 0);
    lemma_part(device, rope, open, parameter, k, Parameter::Key(n), input, outputs, b, 0);
    lemma_part(device, rope, open, parameter, v, Parameter::Value(n), input, outputs, b, 0);
    assert(dims_of(query) =~= d.update(2, attention.q_proj.outputs));
    assert(dims_of(own_query) =~= d.update(2, attention.q_proj.outputs));
    assert(dims_of(key) =~= d.update(2, attention.k_proj.outputs));
    assert(dims_of(own_key) =~= d.update(2, attention.k_proj.outputs));
    assert(dims_of(value) =~= d.update(2, attention.v_proj.outputs));
    assert(dims_of(own_value) =~= d.update(2, attention.v_proj.outputs));
}

/// A layer's cache can take what the layer makes of an input.
pub open spec fn fits_layer(layer: LlamaDecoderLayer, input: Term, start: usize) -> bool {
    &&& layer.wf()
    &&& layer.packs()
    &&& layer.self_attn.rope.width == layer.self_attn.head_dimension
    &&& layer.self_attn.takes(dims_of(input), start)
}

/// A pass over packed attention after what a cache holds, vector by vector.
proof fn lemma_packed_cached_attention(
    device: Device,
    open: spec_fn(Term, Seq<int>) -> int,
    layer: LlamaDecoderLayer,
    input: Term,
    cache: LlamaLayerCache,
    past: Past,
    b: int,
    s: int,
)
    requires
        runs_kernels(device, layer.self_attn.rope, open),
        packs_parameters(device, layer),
        fits_layer(layer, input, cache.sequence_length),
        cache.wf(),
        cache.storage_capacity == cache.sequence_length,
        cache.accepts(layer.self_attn.key_dims(dims_of(input))),
        remembers(past, cache, layer.self_attn.layer, b, open),
        0 <= b < dims_of(input)[0],
        0 <= s < dims_of(input)[1],
    ensures
        ({
            let made = PackedLlamaAttention::packing(layer.self_attn).cached_result(input, cache);
            &&& dims_of(made) == dims_of(input)
            &&& features(made, b, s, open) == attention_of(
                device,
                layer.self_attn,
                past,
                vectors(input, b, open),
                s,
            )
        }),
{
    let attention = layer.self_attn;
    let packed = PackedLlamaAttention::packing(attention);
    let start = cache.sequence_length;
    let d = dims_of(input);
    let p = packed.cached_projected(input, start);
    let seen = vectors(input, b, open);
    let key = cache.appended(Op::CachedKey(attention.layer), p.key);
    let value = cache.appended(Op::CachedValue(attention.layer), p.value);
    let context = packed.context(p.query, key, value, start);
    lemma_packed_projected(device, open, layer, past, input, start, b);
    lemma_remembered(device, open, attention, past, seen, p, d, cache, b);
    assert(dims_of(key) =~= seq![
        d[0],
        attention.num_kv_heads,
        dims_of(key)[2],
        attention.head_dimension,
    ]);
    assert forall|h: int| 0 <= h < attention.num_query_heads implies #[trigger] head_vector(
        context,
        b,
        h,
        s,
        open,
    ) == head_context(device, attention, past, seen, h, s) by {
        lemma_context(device, open, attention, past, seen, p.query, key, value, start, b, s, h);
    }
    lemma_context(device, open, attention, past, seen, p.query, key, value, start, b, s, 0);
    lemma_output(device, open, attention, past, seen, context, b, s);
    assert(dims_of(packed.cached_result(input, cache)) =~= d);
}

/// A pass over packed attention without a cache, vector by vector: with a causal mask, or fused.
proof fn lemma_packed_attention(
    device: Device,
    open: spec_fn(Term, Seq<int>) -> int,
    layer: LlamaDecoderLayer,
    input: Term,
    mask: Option<Term>,
    b: int,
    s: int,
)
    requires
        runs_kernels(device, layer.self_attn.rope, open),
        packs_parameters(device, layer),
        fits_layer(layer, input, 0),
        mask matches Some(mask) ==> mask == mask_term(dims_of(input)[1], dims_of(input)[1], 0),
        0 <= b < dims_of(input)[0],
        0 <= s < dims_of(input)[1],
    ensures
        ({
            let made = PackedLlamaAttention::packing(layer.self_attn).result(input, mask);
            &&& dims_of(made) == dims_of(input)
            &&& features(made, b, s, open) == attention_of(
                device,
                layer.self_attn,
                nothing(),
                vectors(input, b, open),
                s,
            )
        }),
{
    let attention = layer.self_attn;
    let packed = PackedLlamaAttention::packing(attention);
    let past = nothing();
    let d = dims_of(input);
    let p = packed.projected(input);
    let seen = vectors(input, b, open);
    let heads = attention.num_query_heads;
    lemma_packed_projected(device, open, layer, past, input, 0, b);
    lemma_groups(heads, attention.num_kv_heads, attention.head_dimension);
    let groups = packed.groups();
    let keys = repeated_heads(p.key, groups);
    let values = repeated_heads(p.value, groups);
    assert(holds_all(device, attention, past, seen, p.key, p.value, b, open)) by {
        assert forall|h: int| 0 <= h < attention.num_kv_heads implies #[trigger] head_vectors(
            p.key,
            b,
            h,
            open,
        ) == keys_of(device, attention, past, seen, h) by {
            let want = keys_of(device, attention, past, seen, h);
            assert forall|m: int| 0 <= m < seen.len() implies head_vector(p.key, b, h, m, open)
                == want[m] by {
                assert(head_vector(p.key, b, h, m, open) == want[past.length + m]);
            }
            assert(head_vectors(p.key, b, h, open) =~= want);
        }
        assert forall|h: int| 0 <= h < attention.num_kv_heads implies #[trigger] head_vectors(
            p.value,
            b,
            h,
            open,
        ) == values_of(device, attention, past, seen, h) by {
            let want = values_of(device, attention, past, seen, h);
            assert forall|m: int| 0 <= m < seen.len() implies head_vector(p.value, b, h, m, open)
                == want[m] by {
                assert(head_vector(p.value, b, h, m, open) == want[past.length + m]);
            }
            assert(head_vectors(p.value, b, h, open) =~= want);
        }
    }
    let context = match mask {
        Some(mask) => masked_attention(p.query, keys, values, mask),
        None => same_term(Op::FlashAttention(p.query, keys, values), p.query),
    };
    lemma_shared(p.key, groups, b, 0, open);
    assert(mask is Some ==> context == attended(p.query, keys, values, 0));
    lemma_context(device, open, attention, past, seen, p.query, p.key, p.value, 0, b, s, 0);
    assert forall|h: int| 0 <= h < heads implies #[trigger] head_vector(context, b, h, s, open)
        == head_context(device, attention, past, seen, h, s) by {
        lemma_context(device, open, attention, past, seen, p.query, p.key, p.value, 0, b, s, h);
        if mask is None {
            lemma_shared(p.key, groups, b, h, open);
            lemma_shared(p.value, groups, b, h, open);
            let shared = h / groups as int;
            assert(0 <= shared < attention.num_kv_heads) by (nonlinear_arith)
                requires
                    0 <= h < heads,
                    heads == attention.num_kv_heads * groups,
                    groups > 0,
                    shared == h / groups as int,
            ;
            assert(head_vectors(p.key, b, shared, open) == keys_of(
                device,
                attention,
                past,
                seen,
                shared,
            ));
            assert(head_vectors(p.value, b, shared, open) == values_of(
                device,
                attention,
                past,
                seen,
                shared,
            ));
            let want = head_context(device, attention, past, seen, h, s);
            assert forall|j: int| 0 <= j < attention.head_dimension implies entry(
                context,
                at_4(b, h, s, j),
                open,
            ) == want[j] by {
                assert(entry(context, at_4(b, h, s, j), open) == open(
                    value(Op::FlashAttention(p.query, keys, values), dims_of(p.query)),
                    at_4(b, h, s, j),
                ));
            }
            assert(head_vector(p.query, b, h, s, open) == query_of(
                device,
                attention,
                past,
                seen,
                h,
                s,
            ));
            assert(head_vector(context, b, h, s, open) =~= want);
        }
    }
    lemma_output(device, open, attention, past, seen, context, b, s);
    assert(dims_of(packed.result(input, mask)) =~= d);
}

/// A packed feed-forward block, vector by vector, by separate operations and by its kernel.
proof fn lemma_packed_fed(
    device: Device,
    open: spec_fn(Term, Seq<int>) -> int,
    layer: LlamaDecoderLayer,
    input: Term,
    b: int,
    s: int,
)
    requires
        runs_kernels(device, layer.self_attn.rope, open),
        packs_parameters(device, layer),
        layer.wf(),
        layer.packs(),
        dims_of(input).len() == 3,
        dims_of(input)[2] == layer.self_attn.q_proj.inputs,
        0 <= b < dims_of(input)[0],
        0 <= s < dims_of(input)[1],
    ensures
        ({
            let packed = PackedLlamaFeedForward::packing(layer.mlp);
            let want = feed_forward_of(device, layer.mlp, features(input, b, s, open));
            &&& dims_of(packed.result(input)) == dims_of(input)
            &&& dims_of(packed.kernel_result(input)) == dims_of(input)
            &&& features(packed.result(input), b, s, open) == want
            &&& features(packed.kernel_result(input), b, s, open) == want
        }),
{
    let mlp = layer.mlp;
    let rope = layer.self_attn.rope;
    let n = mlp.layer;
    let packed = PackedLlamaFeedForward::packing(mlp);
    let parameter = Parameter::PackedGateUp(n);
    let outputs = packed.gate_up.outputs;
    let size = mlp.gate_proj.outputs;
    let d = dims_of(input);
    let v = features(input, b, s, open);
    let gate = part_term(parameter, packed.gate_span(), input, outputs);
    let up = part_term(parameter, packed.up_span(), input, outputs);
    let through = gated(gate, up);
    let down = mlp.down_proj.outputs;
    lemma_part(
        device,
        rope,
        open,
        parameter,
        packed.gate_span(),
        Parameter::Gate(n),
        input,
        outputs,
        b,
        s,
    );
    lemma_part(
        device,
        rope,
        open,
        parameter,
        packed.up_span(),
        Parameter::Up(n),
        input,
        outputs,
        b,
        s,
    );
    let x = mapped(device, Parameter::Gate(n), size as nat, v);
    let y = mapped(device, Parameter::Up(n), size as nat, v);
    let want = Seq::new(size as nat, |k: int| (device.silu)(x[k]) * y[k]);
    let active = same_term(Op::Silu(gate), gate);
    assert forall|k: int| 0 <= k < size implies entry(through, at_3(b, s, k), open)
        == want[k] by {
        lemma_inside_3(dims_of(up), b, s, k);
        assert(entry(active, at_3(b, s, k), open) == open(
            value(Op::Silu(gate), dims_of(gate)),
            at_3(b, s, k),
        ));
        assert(features(gate, b, s, open)[k] == entry(gate, at_3(b, s, k), open));
        assert(features(up, b, s, open)[k] == entry(up, at_3(b, s, k), open));
    }
    assert(features(through, b, s, open) =~= want);
    lemma_mapped(device, rope, open, Parameter::Down(n), through, down, b, s);
    assert(dims_of(packed.result(input)) =~= d);
    let all = project_term(parameter, input, outputs);
    let combined = value(Op::Swiglu(all), seq![d[0], d[1], packed.d_ff]);
    let whole = mapped(device, parameter, outputs as nat, v);
    lemma_mapped(device, rope, open, parameter, input, outputs, b, s);
    lemma_part_of_map(device, parameter, 0, Parameter::Gate(n), size as int, outputs as nat, v);
    lemma_part_of_map(
        device,
        parameter,
        size as int,
        Parameter::Up(n),
        size as int,
        outputs as nat,
        v,
    );
    assert forall|k: int| 0 <= k < size implies entry(combined, at_3(b, s, k), open)
        == want[k] by {
        assert(entry(combined, at_3(b, s, k), open) == open(
            value(Op::Swiglu(all), dims_of(combined)),
            at_3(b, s, k),
        ));
        assert(whole.subrange(0, size as int)[k] == whole[k]);
        assert(whole.subrange(size as int, size + size)[k] == whole[size + k]);
        assert(dims_of(all)[2] as int / 2 == size);
    }
    assert(features(combined, b, s, open) =~= want);
    lemma_mapped(device, rope, open, Parameter::Down(n), combined, down, b, s);
    assert(dims_of(packed.kernel_result(input)) =~= d);
}

/// What stands in storage before new keys or values are written is what was held.
proof fn lemma_storage(
    cache: LlamaLayerCache,
    op: Op<Term>,
    shape: StoredShape,
    added: usize,
    b: int,
    h: int,
    m: int,
    open: spec_fn(Term, Seq<int>) -> int,
)
    requires
        cache.wf(),
        cache.has_room(shape, added),
    ensures
        ({
            let end = cache.sequence_length + added;
            let t = cache.storage(op, shape, end);
            &&& dims_of(t) == shape.dims(cache.capacity_for(end) as usize)
            &&& end <= cache.capacity_for(end) <= usize::MAX
            &&& 0 <= m < cache.sequence_length ==> head_vector(t, b, h, m, open) == head_vector(
                cache.held(op),
                b,
                h,
                m,
                open,
            )
        }),
{
    let end = cache.sequence_length + added;
    let t = cache.storage(op, shape, end);
    law_growth_makes_room(cache.growth_base(), end);
    assert(dims_of(t) =~= shape.dims(cache.capacity_for(end) as usize));
    if 0 <= m < cache.sequence_length {
        let held = cache.held(op);
        assert forall|j: int| 0 <= j < shape.width implies entry(t, at_4(b, h, m, j), open)
            == entry(held, at_4(b, h, m, j), open) by {
            if cache.storage_capacity < end {
                let at = at_4(b, h, m, j);
                assert(at.update(2, at[2] - 0) =~= at);
                let part = slice_term(held, 2, 0, cache.sequence_length);
                assert(entry(t, at, open) == entry(part, at, open));
                assert(at.update(2, at[2] + 0) =~= at);
            }
        }
        assert(head_vector(t, b, h, m, open) =~= head_vector(held, b, h, m, open));
    }
}

/// The keys and values of a layer stand at the front of storage.
pub open spec fn stores_all(
    device: Device,
    attention: LlamaAttention,
    past: Past,
    seen: Seq<Seq<int>>,
    key: Term,
    values: Term,
    b: int,
    open: spec_fn(Term, Seq<int>) -> int,
) -> bool {
    &&& forall|h: int, m: int|
        0 <= h < attention.num_kv_heads && 0 <= m < past.length + seen.len() ==> #[trigger]
        head_vector(key, b, h, m, open) == keys_of(device, attention, past, seen, h)[m]
    &&& forall|h: int, m: int|
        0 <= h < attention.num_kv_heads && 0 <= m < past.length + seen.len() ==> #[trigger]
        head_vector(values, b, h, m, open) == values_of(device, attention, past, seen, h)[m]
}

/// A layer's storage has room for what the layer makes of an input.
pub open spec fn has_place(layer: LlamaDecoderLayer, input: Term, cache: LlamaLayerCache) -> bool {
    &&& cache.wf()
    &&& cache.has_room(
        PackedLlamaAttention::packing(layer.self_attn).stored_shape(dims_of(input)),
        dims_of(input)[1],
    )
}

/// The features of heads in a packed projection.
proof fn lemma_packed_heads(
    device: Device,
    open: spec_fn(Term, Seq<int>) -> int,
    layer: LlamaDecoderLayer,
    input: Term,
    b: int,
    h: int,
    s: int,
)
    requires
        runs_kernels(device, layer.self_attn.rope, open),
        packs_parameters(device, layer),
        layer.wf(),
        layer.packs(),
        0 <= h,
    ensures
        ({
            let attention = layer.self_attn;
            let n = attention.layer;
            let width = attention.head_dimension as int;
            let queries = attention.num_query_heads;
            let shared = attention.num_kv_heads;
            let all = features(PackedLlamaAttention::packing(attention).packed(input), b, s, open);
            let x = features(input, b, s, open);
            &&& h < queries ==> head_of(all, h, width) == head_of(
                mapped(device, Parameter::Query(n), attention.q_proj.outputs as nat, x),
                h,
                width,
            )
            &&& h < shared ==> head_of(all, queries + h, width) == head_of(
                mapped(device, Parameter::Key(n), attention.k_proj.outputs as nat, x),
                h,
                width,
            )
            &&& h < shared ==> head_of(all, queries + shared + h, width) == head_of(
                mapped(device, Parameter::Value(n), attention.v_proj.outputs as nat, x),
                h,
                width,
            )
        }),
{
    let attention = layer.self_attn;
    let n = attention.layer;
    let width = attention.head_dimension as int;
    let queries = attention.num_query_heads;
    let shared = attention.num_kv_heads;
    let packed = PackedLlamaAttention::packing(attention);
    let parameter = Parameter::PackedQkv(n);
    let outputs = packed.qkv.outputs;
    let x = features(input, b, s, open);
    let all = mapped(device, parameter, outputs as nat, x);
    let q = attention.q_proj.outputs;
    let k = attention.k_proj.outputs;
    let v = attention.v_proj.outputs;
    lemma_columns(layer);
    lemma_mapped(device, attention.rope, open, parameter, input, outputs, b, s);
    lemma_part_of_map(device, parameter, 0, Parameter::Query(n), q as int, outputs as nat, x);
    lemma_part_of_map(device, parameter, q as int, Parameter::Key(n), k as int, outputs as nat, x);
    lemma_part_of_map(device, parameter, q + k, Parameter::Value(n), v as int, outputs as nat, x);
    let query = mapped(device, Parameter::Query(n), q as nat, x);
    let key = mapped(device, Parameter::Key(n), k as nat, x);
    let value = mapped(device, Parameter::Value(n), v as nat, x);
    assert((queries + h) * width == queries * width + h * width) by (nonlinear_arith);
    assert((queries + shared + h) * width == queries * width + shared * width + h * width)
        by (nonlinear_arith);
    if h < queries {
        assert forall|j: int| 0 <= j < width implies head_of(all, h, width)[j] == head_of(
            query,
            h,
            width,
        )[j] by {
            assert(0 <= h * width + j < q) by (nonlinear_arith)
                requires
                    0 <= h < queries,
                    0 <= j < width,
                    q == queries * width,
            ;
            assert(all.subrange(0, q as int)[h * width + j] == all[h * width + j]);
        }
        assert(head_of(all, h, width) =~= head_of(query, h, width));
    }
    if h < shared {
        assert forall|j: int| 0 <= j < width implies head_of(all, queries + h, width)[j]
            == head_of(key, h, width)[j] && head_of(all, queries + shared + h, width)[j] == head_of(
            value,
            h,
            width,
        )[j] by {
            assert(0 <= h * width + j < k) by (nonlinear_arith)
                requires
                    0 <= h < shared,
                    0 <= j < width,
                    k == shared * width,
            ;
            assert(all.subrange(q as int, q + k)[h * width + j] == all[q + (h * width + j)]);
            assert(all.subrange(q + k, q + k + v)[h * width + j] == all[q + k + (h * width + j)]);
        }
        assert(head_of(all, queries + h, width) =~= head_of(key, h, width));
        assert(head_of(all, queries + shared + h, width) =~= head_of(value, h, width));
    }
}

/// The queries of a pass by dedicated kernels, and what stands in storage after it.
proof fn lemma_kernel_projected(
    device: Device,
    open: spec_fn(Term, Seq<int>) -> int,
    layer: LlamaDecoderLayer,
    past: Past,
    input: Term,
    cache: LlamaLayerCache,
    b: int,
)
    requires
        runs_kernels(device, layer.self_attn.rope, open),
        packs_parameters(device, layer),
        fits_layer(layer, input, cache.sequence_length),
        has_place(layer, input, cache),
        remembers(past, cache, layer.self_attn.layer, b, open),
        0 <= b < dims_of(input)[0],
    ensures
        ({
            let attention = layer.self_attn;
            let packed = PackedLlamaAttention::packing(attention);
            let d = dims_of(input);
            let seen = vectors(input, b, open);
            let p = packed.kernel_projected(input, cache);
            let end = cache.sequence_length + d[1];
            let capacity = cache.capacity_for(end) as usize;
            &&& end <= capacity
            &&& dims_of(p.query) == seq![
                d[0],
                attention.num_query_heads,
                d[1],
                attention.head_dimension,
            ]
            &&& dims_of(p.key) == packed.stored_shape(d).dims(capacity)
            &&& dims_of(p.value) == packed.stored_shape(d).dims(capacity)
            &&& forall|h: int, s: int|
                0 <= h < attention.num_query_heads && 0 <= s < seen.len() ==> #[trigger]
                head_vector(p.query, b, h, s, open) == query_of(
                    device,
                    attention,
                    past,
                    seen,
                    h,
                    s,
                )
            &&& stores_all(device, attention, past, seen, p.key, p.value, b, open)
        }),
{
    let attention = layer.self_attn;
    let packed = PackedLlamaAttention::packing(attention);
    let n = attention.layer;
    let d = dims_of(input);
    let seen = vectors(input, b, open);
    let shape = packed.stored_shape(d);
    let start = cache.sequence_length;
    let end = start + d[1];
    let width = attention.head_dimension;
    let key = cache.storage(Op::CachedKey(n), shape, end);
    let val = cache.storage(Op::CachedValue(n), shape, end);
    let p = packed.kernel_projected(input, cache);
    lemma_storage(cache, Op::CachedKey(n), shape, d[1], b, 0, 0, open);
    lemma_storage(cache, Op::CachedValue(n), shape, d[1], b, 0, 0, open);
    lemma_packed_projected(device, open, layer, past, input, start, b);
    let sliced = packed.cached_projected(input, start);
    let all = packed.packed(input);
    let op = fused(attention.rope, all, key, val, start, start);
    let inner = seq![d[0], attention.num_query_heads, d[1], width];
    assert(runs_fused(device, attention.rope, open, op));
    if attention.rotary_layout is HalfSplit {
        assert(p.query == value(op, inner));
    }
    assert forall|h: int, s: int|
        0 <= h < attention.num_query_heads && 0 <= s < seen.len() implies #[trigger] head_vector(
        p.query,
        b,
        h,
        s,
        open,
    ) == query_of(device, attention, past, seen, h, s) by {
        if attention.rotary_layout is HalfSplit {
            let want = query_of(device, attention, past, seen, h, s);
            lemma_packed_heads(device, open, layer, input, b, h, s);
            assert forall|j: int| 0 <= j < width implies entry(p.query, at_4(b, h, s, j), open)
                == want[j] by {
                assert(entry(p.query, at_4(b, h, s, j), open) == open(
                    value(op, inner),
                    at_4(b, h, s, j),
                ));
            }
            assert(head_vector(p.query, b, h, s, open) =~= want);
        }
    }
    assert forall|h: int, m: int|
        0 <= h < attention.num_kv_heads && 0 <= m < past.length + seen.len() implies #[trigger]
    head_vector(p.key, b, h, m, open) == keys_of(device, attention, past, seen, h)[m] by {
        let want = keys_of(device, attention, past, seen, h)[m];
        lemma_storage(cache, Op::CachedKey(n), shape, d[1], b, h, m, open);
        if m >= start {
            assert(head_vector(sliced.key, b, h, m - start, open) == keys_of(
                device,
                attention,
                past,
                seen,
                h,
            )[past.length + (m - start)]);
            lemma_packed_heads(device, open, layer, input, b, h, m - start);
        } else {
            assert(want == (past.key)(h, m));
        }
        assert forall|j: int| 0 <= j < width implies entry(p.key, at_4(b, h, m, j), open)
            == want[j] by {
            let at = at_4(b, h, m, j);
            assert(head_vector(key, b, h, m, open)[j] == entry(key, at, open));
            match attention.rotary_layout {
                RotaryLayout::HalfSplit => {
                    assert(entry(p.key, at, open) == open(
                        value(Op::FusedKey(value(op, inner), key), dims_of(key)),
                        at,
                    ));
                },
                RotaryLayout::Interleaved => {
                    assert(at.update(2, at[2] - start) =~= at_4(b, h, m - start, j));
                    if m >= start {
                        assert(head_vector(sliced.key, b, h, m - start, open)[j] == entry(
                            sliced.key,
                            at_4(b, h, m - start, j),
                            open,
                        ));
                    }
                },
            }
        }
        assert(head_vector(p.key, b, h, m, open) =~= want);
    }
    assert forall|h: int, m: int|
        0 <= h < attention.num_kv_heads && 0 <= m < past.length + seen.len() implies #[trigger]
    head_vector(p.value, b, h, m, open) == values_of(device, attention, past, seen, h)[m] by {
        let want = values_of(device, attention, past, seen, h)[m];
        lemma_storage(cache, Op::CachedValue(n), shape, d[1], b, h, m, open);
        if m >= start {
            assert(head_vector(sliced.value, b, h, m - start, open) == values_of(
                device,
                attention,
                past,
                seen,
                h,
            )[past.length + (m - start)]);
            lemma_packed_heads(device, open, layer, input, b, h, m - start);
        } else {
            assert(want == (past.value)(h, m));
        }
        assert forall|j: int| 0 <= j < width implies entry(p.value, at_4(b, h, m, j), open)
            == want[j] by {
            let at = at_4(b, h, m, j);
            assert(head_vector(val, b, h, m, open)[j] == entry(val, at, open));
            match attention.rotary_layout {
                RotaryLayout::HalfSplit => {
                    assert(entry(p.value, at, open) == open(
                        value(Op::FusedValue(value(op, inner), val), dims_of(val)),
                        at,
                    ));
                },
                RotaryLayout::Interleaved => {
                    assert(at.update(2, at[2] - start) =~= at_4(b, h, m - start, j));
                    if m >= start {
                        assert(head_vector(sliced.value, b, h, m - start, open)[j] == entry(
                            sliced.value,
                            at_4(b, h, m - start, j),
                            open,
                        ));
                    }
                },
            }
        }
        assert(head_vector(p.value, b, h, m, open) =~= want);
    }
    assert(dims_of(p.key) =~= shape.dims(cache.capacity_for(end) as usize));
    assert(dims_of(p.value) =~= shape.dims(cache.capacity_for(end) as usize));
}

/// A pass over attention by dedicated kernels, vector by vector.
proof fn lemma_kernel_attention(
    device: Device,
    open: spec_fn(Term, Seq<int>) -> int,
    layer: LlamaDecoderLayer,
    input: Term,
    cache: LlamaLayerCache,
    past: Past,
    b: int,
    s: int,
)
    requires
        runs_kernels(device, layer.self_attn.rope, open),
        packs_parameters(device, layer),
        fits_layer(layer, input, cache.sequence_length),
        has_place(layer, input, cache),
        remembers(past, cache, layer.self_attn.layer, b, open),
        0 <= b < dims_of(input)[0],
        0 <= s < dims_of(input)[1],
    ensures
        ({
            let made = PackedLlamaAttention::packing(layer.self_attn).kernel_result(input, cache);
            &&& dims_of(made) == dims_of(input)
            &&& features(made, b, s, open) == attention_of(
                device,
                layer.self_attn,
                past,
                vectors(input, b, open),
                s,
            )
        }),
{
    let attention = layer.self_attn;
    let packed = PackedLlamaAttention::packing(attention);
    let d = dims_of(input);
    let seen = vectors(input, b, open);
    let start = cache.sequence_length;
    let end = (start + d[1]) as usize;
    let p = packed.kernel_projected(input, cache);
    let heads = attention.num_query_heads;
    let groups = packed.groups();
    lemma_groups(heads, attention.num_kv_heads, attention.head_dimension);
    lemma_kernel_projected(device, open, layer, past, input, cache, b);
    let context = packed.kernel_context(p, start, end);
    let key = slice_term(p.key, 2, 0, end);
    let val = slice_term(p.value, 2, 0, end);
    assert(dims_of(key) =~= seq![
        d[0],
        attention.num_kv_heads,
        end,
        attention.head_dimension,
    ]);
    assert(dims_of(val) =~= dims_of(key));
    assert forall|h: int| 0 <= h < attention.num_kv_heads implies #[trigger] head_vectors(
        key,
        b,
        h,
        open,
    ) == keys_of(device, attention, past, seen, h) && head_vectors(p.key, b, h, open).take(
        end as int,
    ) == keys_of(device, attention, past, seen, h) by {
        let want = keys_of(device, attention, past, seen, h);
        assert forall|m: int| 0 <= m < end implies head_vector(key, b, h, m, open) == want[m]
            && head_vectors(p.key, b, h, open)[m] == want[m] by {
            assert(head_vector(p.key, b, h, m, open) == want[m]);
            assert forall|j: int| 0 <= j < attention.head_dimension implies entry(
                key,
                at_4(b, h, m, j),
                open,
            ) == want[m][j] by {
                assert(at_4(b, h, m, j).update(2, m + 0) =~= at_4(b, h, m, j));
                assert(head_vector(p.key, b, h, m, open)[j] == entry(
                    p.key,
                    at_4(b, h, m, j),
                    open,
                ));
            }
            assert(head_vector(key, b, h, m, open) =~= want[m]);
        }
        assert(head_vectors(key, b, h, open) =~= want);
        assert(head_vectors(p.key, b, h, open).take(end as int) =~= want);
    }
    assert forall|h: int| 0 <= h < attention.num_kv_heads implies #[trigger] head_vectors(
        val,
        b,
        h,
        open,
    ) == values_of(device, attention, past, seen, h) && head_vectors(p.value, b, h, open).take(
        end as int,
    ) == values_of(device, attention, past, seen, h) by {
        let want = values_of(device, attention, past, seen, h);
        assert forall|m: int| 0 <= m < end implies head_vector(val, b, h, m, open) == want[m]
            && head_vectors(p.value, b, h, open)[m] == want[m] by {
            assert(head_vector(p.value, b, h, m, open) == want[m]);
            assert forall|j: int| 0 <= j < attention.head_dimension implies entry(
                val,
                at_4(b, h, m, j),
                open,
            ) == want[m][j] by {
                assert(at_4(b, h, m, j).update(2, m + 0) =~= at_4(b, h, m, j));
                assert(head_vector(p.value, b, h, m, open)[j] == entry(
                    p.value,
                    at_4(b, h, m, j),
                    open,
                ));
            }
            assert(head_vector(val, b, h, m, open) =~= want[m]);
        }
        assert(head_vectors(val, b, h, open) =~= want);
        assert(head_vectors(p.value, b, h, open).take(end as int) =~= want);
    }
    lemma_context(device, open, attention, past, seen, p.query, key, val, start, b, s, 0);
    assert(dims_of(context) == dims_of(p.query));
    assert forall|h: int| 0 <= h < heads implies #[trigger] head_vector(context, b, h, s, open)
        == head_context(device, attention, past, seen, h, s) by {
        lemma_context(device, open, attention, past, seen, p.query, key, val, start, b, s, h);
        if dims_of(p.query)[2] == 1 && attention.head_dimension == DECODE_HEAD_DIMENSION {
            let want = head_context(device, attention, past, seen, h, s);
            let shared = h / groups as int;
            assert(0 <= shared < attention.num_kv_heads) by (nonlinear_arith)
                requires
                    0 <= h < heads,
                    heads == attention.num_kv_heads * groups,
                    groups > 0,
                    shared == h / groups as int,
            ;
            assert(head_vectors(key, b, shared, open) == keys_of(
                device,
                attention,
                past,
                seen,
                shared,
            ));
            assert(head_vectors(val, b, shared, open) == values_of(
                device,
                attention,
                past,
                seen,
                shared,
            ));
            assert(head_vector(p.query, b, h, 0, open) == query_of(
                device,
                attention,
                past,
                seen,
                h,
                0,
            ));
            assert forall|j: int| 0 <= j < attention.head_dimension implies entry(
                context,
                at_4(b, h, 0, j),
                open,
            ) == want[j] by {
                assert(entry(context, at_4(b, h, 0, j), open) == open(
                    value(
                        Op::DecodeAttention(p.query, p.key, p.value, end),
                        dims_of(p.query),
                    ),
                    at_4(b, h, 0, j),
                ));
            }
            assert(head_vector(context, b, h, s, open) =~= want);
        }
    }
    lemma_output(device, open, attention, past, seen, context, b, s);
    assert(dims_of(packed.kernel_result(input, cache)) =~= d);
}

/// A norm by a dedicated kernel, vector by vector.
proof fn lemma_kernel_normed(
    device: Device,
    rope: RotaryEncoding,
    open: spec_fn(Term, Seq<int>) -> int,
    p: Parameter,
    t: Term,
    b: int,
    s: int,
)
    requires
        runs_kernels(device, rope, open),
    ensures
        features(same_term(Op::NormKernel(p, t), t), b, s, open) == normed(
            device,
            p,
            features(t, b, s, open),
        ),
{
    let made = same_term(Op::NormKernel(p, t), t);
    let x = features(t, b, s, open);
    assert forall|k: int| 0 <= k < x.len() implies entry(made, at_3(b, s, k), open) == normed(
        device,
        p,
        x,
    )[k] by {
        assert(entry(made, at_3(b, s, k), open) == open(
            value(Op::NormKernel(p, t), dims_of(made)),
            at_3(b, s, k),
        ));
    }
    assert(features(made, b, s, open) =~= normed(device, p, x));
}

/// A sum by the kernel that also normalizes it, and what that kernel made of it.
proof fn lemma_fused_sum(
    device: Device,
    rope: RotaryEncoding,
    open: spec_fn(Term, Seq<int>) -> int,
    p: Parameter,
    x: Term,
    y: Term,
    b: int,
    s: int,
)
    requires
        runs_kernels(device, rope, open),
        dims_of(x) == dims_of(y),
    ensures
        ({
            let sum = same_term(Op::FusedSum(p, x, y), x);
            let want = summed(features(x, b, s, open), features(y, b, s, open));
            &&& features(sum, b, s, open) == want
            &&& features(same_term(Op::FusedNorm(sum), sum), b, s, open) == normed(device, p, want)
        }),
{
    let sum = same_term(Op::FusedSum(p, x, y), x);
    let narrow = same_term(Op::FusedNorm(sum), sum);
    let want = summed(features(x, b, s, open), features(y, b, s, open));
    assert forall|k: int| 0 <= k < dims_of(x)[2] implies entry(sum, at_3(b, s, k), open)
        == want[k] by {
        assert(entry(sum, at_3(b, s, k), open) == open(
            value(Op::FusedSum(p, x, y), dims_of(x)),
            at_3(b, s, k),
        ));
    }
    assert(features(sum, b, s, open) =~= want);
    assert forall|k: int| 0 <= k < dims_of(x)[2] implies entry(narrow, at_3(b, s, k), open)
        == normed(device, p, want)[k] by {
        assert(entry(narrow, at_3(b, s, k), open) == open(
            value(Op::FusedNorm(value(Op::FusedSum(p, x, y), dims_of(x))), dims_of(x)),
            at_3(b, s, k),
        ));
    }
    assert(features(narrow, b, s, open) =~= normed(device, p, want));
}

/// What a packed layer makes of what attention returned, vector by vector.
proof fn lemma_packed_completed(
    device: Device,
    open: spec_fn(Term, Seq<int>) -> int,
    layer: LlamaDecoderLayer,
    past: Past,
    seen: Seq<Seq<int>>,
    input: Term,
    attention: Term,
    b: int,
    s: int,
)
    requires
        runs_kernels(device, layer.self_attn.rope, open),
        packs_parameters(device, layer),
        layer.wf(),
        layer.packs(),
        dims_of(input).len() == 3,
        dims_of(input)[2] == layer.self_attn.q_proj.inputs,
        dims_of(attention) == dims_of(input),
        0 <= b < dims_of(input)[0],
        0 <= s < dims_of(input)[1],
        features(attention, b, s, open) == attention_of(device, layer.self_attn, past, seen, s),
    ensures
        ({
            let n = layer.self_attn.layer;
            let packed = PackedLlamaDecoderLayer::packing(layer);
            let h = summed(
                features(input, b, s, open),
                attention_of(device, layer.self_attn, past, seen, s),
            );
            let want = summed(
                h,
                feed_forward_of(device, layer.mlp, normed(device, Parameter::PostNorm(n), h)),
            );
            let made = packed.completed(input, attention);
            &&& dims_of(made) == dims_of(input)
            &&& features(made, b, s, open) == want
        }),
{
    let rope = layer.self_attn.rope;
    let p = Parameter::PostNorm(layer.self_attn.layer);
    let packed = PackedLlamaDecoderLayer::packing(layer);
    let hidden = sum_term(input, attention);
    let narrow = norm_term(p, hidden);
    lemma_summed(input, attention, b, s, open);
    lemma_normed(device, rope, open, p, hidden, b, s);
    lemma_packed_fed(device, open, layer, narrow, b, s);
    lemma_summed(hidden, packed.mlp.result(narrow), b, s, open);
}

/// A packed decoder layer returns `h + mlp(post_norm(h))`, where `h` is
/// `x + attention(input_norm(x))`, with a causal mask and with fused attention.
pub proof fn law_packed_layer_is_a_decoder_layer(
    device: Device,
    open: spec_fn(Term, Seq<int>) -> int,
    layer: LlamaDecoderLayer,
    input: Term,
    mask: Option<Term>,
    b: int,
)
    requires
        runs_kernels(device, layer.self_attn.rope, open),
        packs_parameters(device, layer),
        fits_layer(layer, input, 0),
        mask matches Some(mask) ==> mask == mask_term(dims_of(input)[1], dims_of(input)[1], 0),
        0 <= b < dims_of(input)[0],
    ensures
        ({
            let made = PackedLlamaDecoderLayer::packing(layer).result(input, mask);
            &&& dims_of(made) == dims_of(input)
            &&& vectors(made, b, open) == layer_of_vectors(
                device,
                layer,
                nothing(),
                vectors(input, b, open),
            )
        }),
{
    let rope = layer.self_attn.rope;
    let n = layer.self_attn.layer;
    let packed = PackedLlamaDecoderLayer::packing(layer);
    let x = vectors(input, b, open);
    let normal = packed.normalized(input);
    let seen = Seq::new(x.len(), |s: int| normed(device, Parameter::InputNorm(n), x[s]));
    assert forall|s: int| 0 <= s < x.len() implies features(normal, b, s, open) == seen[s] by {
        lemma_normed(device, rope, open, Parameter::InputNorm(n), input, b, s);
    }
    assert(vectors(normal, b, open) =~= seen);
    let made = packed.result(input, mask);
    let want = layer_of_vectors(device, layer, nothing(), x);
    assert forall|s: int| 0 <= s < x.len() implies features(made, b, s, open) == want[s] by {
        let attention = packed.self_attn.result(normal, mask);
        lemma_packed_attention(device, open, layer, normal, mask, b, s);
        lemma_packed_completed(device, open, layer, nothing(), seen, input, attention, b, s);
    }
    assert(vectors(made, b, open) =~= want);
}

proof fn lemma_packed_cached_layer(
    device: Device,
    open: spec_fn(Term, Seq<int>) -> int,
    layer: LlamaDecoderLayer,
    input: Term,
    cache: LlamaLayerCache,
    past: Past,
    b: int,
)
    requires
        runs_kernels(device, layer.self_attn.rope, open),
        packs_parameters(device, layer),
        fits_layer(layer, input, cache.sequence_length),
        cache.wf(),
        cache.storage_capacity == cache.sequence_length,
        cache.accepts(layer.self_attn.key_dims(dims_of(input))),
        remembers(past, cache, layer.self_attn.layer, b, open),
        0 <= b < dims_of(input)[0],
    ensures
        ({
            let made = PackedLlamaDecoderLayer::packing(layer).cached_result(input, cache);
            &&& dims_of(made) == dims_of(input)
            &&& vectors(made, b, open) == layer_of_vectors(
                device,
                layer,
                past,
                vectors(input, b, open),
            )
        }),
{
    let rope = layer.self_attn.rope;
    let n = layer.self_attn.layer;
    let packed = PackedLlamaDecoderLayer::packing(layer);
    let x = vectors(input, b, open);
    let normal = packed.normalized(input);
    let seen = Seq::new(x.len(), |s: int| normed(device, Parameter::InputNorm(n), x[s]));
    assert forall|s: int| 0 <= s < x.len() implies features(normal, b, s, open) == seen[s] by {
        lemma_normed(device, rope, open, Parameter::InputNorm(n), input, b, s);
    }
    assert(vectors(normal, b, open) =~= seen);
    let made = packed.cached_result(input, cache);
    let want = layer_of_vectors(device, layer, past, x);
    assert forall|s: int| 0 <= s < x.len() implies features(made, b, s, open) == want[s] by {
        let attention = packed.self_attn.cached_result(normal, cache);
        lemma_packed_cached_attention(device, open, layer, normal, cache, past, b, s);
        lemma_packed_completed(device, open, layer, past, seen, input, attention, b, s);
    }
    assert(vectors(made, b, open) =~= want);
}

/// A packed decoder layer after earlier positions returns `h + mlp(post_norm(h))`, where `h` is
/// `x + attention(input_norm(x))`, and its cache holds the keys and values that attention read from
/// then on.
pub proof fn law_packed_cached_layer_is_a_decoder_layer(
    device: Device,
    open: spec_fn(Term, Seq<int>) -> int,
    layer: LlamaDecoderLayer,
    input: Term,
    cache: LlamaLayerCache,
    b: int,
)
    requires
        runs_kernels(device, layer.self_attn.rope, open),
        packs_parameters(device, layer),
        fits_layer(layer, input, cache.sequence_length),
        cache.wf(),
        cache.storage_capacity == cache.sequence_length,
        cache.accepts(layer.self_attn.key_dims(dims_of(input))),
        0 <= b < dims_of(input)[0],
    ensures
        ({
            let n = layer.self_attn.layer;
            let packed = PackedLlamaDecoderLayer::packing(layer);
            let past = past_of(cache, n, b, open);
            let x = vectors(input, b, open);
            let seen = Seq::new(x.len(), |s: int| normed(device, Parameter::InputNorm(n), x[s]));
            let p = packed.cached_projected(input, cache);
            &&& vectors(packed.cached_result(input, cache), b, open) == layer_of_vectors(
                device,
                layer,
                past,
                x,
            )
            &&& holds_all(device, layer.self_attn, past, seen, p.key, p.value, b, open)
        }),
{
    let n = layer.self_attn.layer;
    let packed = PackedLlamaDecoderLayer::packing(layer);
    let past = past_of(cache, n, b, open);
    let x = vectors(input, b, open);
    let normal = packed.normalized(input);
    let seen = Seq::new(x.len(), |s: int| normed(device, Parameter::InputNorm(n), x[s]));
    lemma_packed_cached_layer(device, open, layer, input, cache, past, b);
    assert forall|s: int| 0 <= s < x.len() implies features(normal, b, s, open) == seen[s] by {
        lemma_normed(device, layer.self_attn.rope, open, Parameter::InputNorm(n), input, b, s);
    }
    assert(vectors(normal, b, open) =~= seen);
    let start = cache.sequence_length;
    lemma_packed_projected(device, open, layer, past, normal, start, b);
    let p = packed.self_attn.cached_projected(normal, start);
    lemma_remembered(device, open, layer.self_attn, past, seen, p, dims_of(input), cache, b);
}

proof fn lemma_kernel_layer(
    device: Device,
    open: spec_fn(Term, Seq<int>) -> int,
    layer: LlamaDecoderLayer,
    input: Term,
    cache: LlamaLayerCache,
    past: Past,
    b: int,
)
    requires
        runs_kernels(device, layer.self_attn.rope, open),
        packs_parameters(device, layer),
        fits_layer(layer, input, cache.sequence_length),
        has_place(layer, input, cache),
        remembers(past, cache, layer.self_attn.layer, b, open),
        0 <= b < dims_of(input)[0],
    ensures
        ({
            let made = PackedLlamaDecoderLayer::packing(layer).kernel_result(input, cache);
            &&& dims_of(made) == dims_of(input)
            &&& vectors(made, b, open) == layer_of_vectors(
                device,
                layer,
                past,
                vectors(input, b, open),
            )
        }),
{
    let rope = layer.self_attn.rope;
    let n = layer.self_attn.layer;
    let packed = PackedLlamaDecoderLayer::packing(layer);
    let x = vectors(input, b, open);
    let normal = packed.kernel_normalized(input);
    let seen = Seq::new(x.len(), |s: int| normed(device, Parameter::InputNorm(n), x[s]));
    assert forall|s: int| 0 <= s < x.len() implies features(normal, b, s, open) == seen[s] by {
        lemma_kernel_normed(device, rope, open, Parameter::InputNorm(n), input, b, s);
    }
    assert(vectors(normal, b, open) =~= seen);
    let p = Parameter::PostNorm(n);
    let attention = packed.self_attn.kernel_result(normal, cache);
    let hidden = same_term(Op::FusedSum(p, input, attention), input);
    let narrow = same_term(Op::FusedNorm(hidden), hidden);
    let fed = packed.mlp.kernel_result(narrow);
    let made = packed.kernel_result(input, cache);
    let want = layer_of_vectors(device, layer, past, x);
    assert forall|s: int| 0 <= s < x.len() implies features(made, b, s, open) == want[s] by {
        lemma_kernel_attention(device, open, layer, normal, cache, past, b, s);
        lemma_fused_sum(device, rope, open, p, input, attention, b, s);
        lemma_packed_fed(device, open, layer, narrow, b, s);
        lemma_summed(hidden, fed, b, s, open);
    }
    assert(vectors(made, b, open) =~= want);
}

/// A decoder layer by its dedicated kernels returns `h + mlp(post_norm(h))`, where `h` is
/// `x + attention(input_norm(x))`, and the keys and values that attention read stand in order at
/// the front of its storage from then on.
pub proof fn law_kernel_layer_is_a_decoder_layer(
    device: Device,
    open: spec_fn(Term, Seq<int>) -> int,
    layer: LlamaDecoderLayer,
    input: Term,
    cache: LlamaLayerCache,
    b: int,
)
    requires
        runs_kernels(device, layer.self_attn.rope, open),
        packs_parameters(device, layer),
        fits_layer(layer, input, cache.sequence_length),
        has_place(layer, input, cache),
        0 <= b < dims_of(input)[0],
    ensures
        ({
            let n = layer.self_attn.layer;
            let packed = PackedLlamaDecoderLayer::packing(layer);
            let past = past_of(cache, n, b, open);
            let x = vectors(input, b, open);
            let seen = Seq::new(x.len(), |s: int| normed(device, Parameter::InputNorm(n), x[s]));
            let p = packed.kernel_projected(input, cache);
            &&& vectors(packed.kernel_result(input, cache), b, open) == layer_of_vectors(
                device,
                layer,
                past,
                x,
            )
            &&& stores_all(device, layer.self_attn, past, seen, p.key, p.value, b, open)
        }),
{
    let n = layer.self_attn.layer;
    let packed = PackedLlamaDecoderLayer::packing(layer);
    let past = past_of(cache, n, b, open);
    let x = vectors(input, b, open);
    let normal = packed.kernel_normalized(input);
    let seen = Seq::new(x.len(), |s: int| normed(device, Parameter::InputNorm(n), x[s]));
    lemma_kernel_layer(device, open, layer, input, cache, past, b);
    assert forall|s: int| 0 <= s < x.len() implies features(normal, b, s, open) == seen[s] by {
        lemma_kernel_normed(
            device,
            layer.self_attn.rope,
            open,
            Parameter::InputNorm(n),
            input,
            b,
            s,
        );
    }
    assert(vectors(normal, b, open) =~= seen);
    lemma_kernel_projected(device, open, layer, past, normal, cache, b);
}

/// A packed model's parameters are those of the model that it was packed from.
pub open spec fn packed_from(
    device: Device,
    rope: RotaryEncoding,
    model: LlamaForCausalLm,
    packed: PackedLlamaForCausalLm,
) -> bool {
    &&& model.wf()
    &&& packed.packs_of(model)
    &&& rotates_by(model, rope)
    &&& forall|i: int| #![trigger model.layers@[i]]
        0 <= i < model.layers@.len() ==> model.layers@[i].packs() && packs_parameters(
            device,
            model.layers@[i],
        )
}

proof fn lemma_packed_through(
    device: Device,
    rope: RotaryEncoding,
    open: spec_fn(Term, Seq<int>) -> int,
    model: LlamaForCausalLm,
    packed: PackedLlamaForCausalLm,
    t: Term,
    b: int,
    n: int,
)
    requires
        runs_kernels(device, rope, open),
        packed_from(device, rope, model, packed),
        dims_of(t).len() == 3,
        dims_of(t)[1] <= model.max_sequence_length,
        dims_of(t)[2] == model.embed_tokens.width,
        0 <= b < dims_of(t)[0],
        0 <= n <= model.layers@.len(),
    ensures
        ({
            let made = packed_through(packed.layers@, t, mask_for(dims_of(t)[1]), n);
            &&& dims_of(made) == dims_of(t)
            &&& vectors(made, b, open) == stacked(
                device,
                model.layers@,
                |i: int| nothing(),
                vectors(t, b, open),
                n,
            )
        }),
    decreases n,
{
    if n > 0 {
        lemma_packed_through(device, rope, open, model, packed, t, b, n - 1);
        let layer = model.layers@[n - 1];
        assert(model.fitting_layer(layer, n - 1));
        let mask = mask_for(dims_of(t)[1]);
        let before = packed_through(packed.layers@, t, mask, n - 1);
        law_packed_layer_is_a_decoder_layer(device, open, layer, before, mask, b);
    }
}

proof fn lemma_packed_cached_through(
    device: Device,
    rope: RotaryEncoding,
    open: spec_fn(Term, Seq<int>) -> int,
    model: LlamaForCausalLm,
    packed: PackedLlamaForCausalLm,
    cache: LlamaKvCache,
    tokens: Term,
    b: int,
    n: int,
)
    requires
        runs_kernels(device, rope, open),
        packed_from(device, rope, model, packed),
        packed.takes(cache, dims_of(tokens)),
        0 <= b < dims_of(tokens)[0],
        0 <= n <= model.layers@.len(),
    ensures
        ({
            let t = embedded(tokens, model.embed_tokens.width);
            let want = stacked(
                device,
                model.layers@,
                |i: int| past_of(cache.layers@[i], i as usize, b, open),
                vectors(t, b, open),
                n,
            );
            let joins = forall|i: int|
                0 <= i < cache.layers@.len() ==> packed.layer_joins(
                    #[trigger] cache.layers@[i],
                    i,
                    dims_of(tokens),
                );
            let grows = forall|i: int|
                0 <= i < cache.layers@.len() ==> packed.layer_grows(
                    #[trigger] cache.layers@[i],
                    i,
                    dims_of(tokens),
                );
            let made = packed_cached_through(packed.layers@, cache.layers@, t, n);
            let fast = kernel_through(packed.layers@, cache.layers@, t, n);
            &&& joins ==> dims_of(made) == dims_of(t) && vectors(made, b, open) == want
            &&& grows ==> dims_of(fast) == dims_of(t) && vectors(fast, b, open) == want
        }),
    decreases n,
{
    if n > 0 {
        lemma_packed_cached_through(device, rope, open, model, packed, cache, tokens, b, n - 1);
        let t = embedded(tokens, model.embed_tokens.width);
        let dims = dims_of(tokens);
        let made = packed_cached_through(packed.layers@, cache.layers@, t, n - 1);
        let fast = kernel_through(packed.layers@, cache.layers@, t, n - 1);
        let layer = model.layers@[n - 1];
        let own = cache.layers@[n - 1];
        assert(model.fitting_layer(layer, n - 1));
        assert(own.wf());
        assert(packed.layers@[n - 1] == PackedLlamaDecoderLayer::packing(layer));
        let past = past_of(own, (n - 1) as usize, b, open);
        assert(packed.hidden_dims(dims) =~= dims_of(t));
        if forall|i: int|
            0 <= i < cache.layers@.len() ==> packed.layer_joins(
                #[trigger] cache.layers@[i],
                i,
                dims,
            ) {
            assert(packed.layer_joins(own, n - 1, dims));
            lemma_packed_cached_layer(device, open, layer, made, own, past, b);
        }
        if forall|i: int|
            0 <= i < cache.layers@.len() ==> packed.layer_grows(
                #[trigger] cache.layers@[i],
                i,
                dims,
            ) {
            assert(packed.layer_grows(own, n - 1, dims));
            lemma_kernel_layer(device, open, layer, fast, own, past, b);
        }
    }
}

proof fn lemma_packed_logits(
    device: Device,
    rope: RotaryEncoding,
    open: spec_fn(Term, Seq<int>) -> int,
    model: LlamaForCausalLm,
    packed: PackedLlamaForCausalLm,
    hidden: Term,
    b: int,
    s: int,
)
    requires
        runs_kernels(device, rope, open),
        packed_from(device, rope, model, packed),
    ensures
        ({
            let want = logits_of(device, model, features(hidden, b, s, open));
            &&& features(packed.logits(hidden), b, s, open) == want
            &&& features(packed.kernel_logits(hidden), b, s, open) == want
        }),
{
    let narrow = norm_term(Parameter::FinalNorm, hidden);
    let fast = same_term(Op::NormKernel(Parameter::FinalNorm, hidden), hidden);
    let outputs = packed.lm_head.outputs;
    lemma_normed(device, rope, open, Parameter::FinalNorm, hidden, b, s);
    lemma_mapped(device, rope, open, Parameter::Head, narrow, outputs, b, s);
    lemma_kernel_normed(device, rope, open, Parameter::FinalNorm, hidden, b, s);
    lemma_mapped(device, rope, open, Parameter::Head, fast, outputs, b, s);
}

/// The logits of a packed model at every position are those of the transformer decoder that it was
/// packed from, for sequences of any length.
pub proof fn law_packed_model_is_a_decoder(
    device: Device,
    rope: RotaryEncoding,
    open: spec_fn(Term, Seq<int>) -> int,
    model: LlamaForCausalLm,
    packed: PackedLlamaForCausalLm,
    tokens: Term,
    b: int,
    s: int,
)
    requires
        runs_kernels(device, rope, open),
        packed_from(device, rope, model, packed),
        dims_of(tokens).len() == 2,
        dims_of(tokens)[1] <= model.max_sequence_length,
        0 <= b < dims_of(tokens)[0],
        0 <= s < dims_of(tokens)[1],
    ensures
        features(
            packed.masked_result(tokens, mask_for(dims_of(tokens)[1])),
            b,
            s,
            open,
        ) == logits_of(
            device,
            model,
            stacked(
                device,
                model.layers@,
                |i: int| nothing(),
                looked_up(device, tokens, model.embed_tokens.width, b, open),
                model.layers@.len() as int,
            )[s],
        ),
{
    let t = embedded(tokens, model.embed_tokens.width);
    let n = model.layers@.len() as int;
    let hidden = packed_through(packed.layers@, t, mask_for(dims_of(tokens)[1]), n);
    lemma_looked_up(device, rope, open, tokens, model.embed_tokens.width, b);
    lemma_packed_through(device, rope, open, model, packed, t, b, n);
    lemma_packed_logits(device, rope, open, model, packed, hidden, b, s);
    assert(vectors(hidden, b, open)[s] == features(hidden, b, s, open));
}

/// The logits that a packed model returns after earlier positions, by separate operations and by
/// dedicated kernels, are those of the transformer decoder that it was packed from, whose layers
/// also attend to the keys and values that their caches hold.
pub proof fn law_packed_cached_model_is_a_decoder(
    device: Device,
    rope: RotaryEncoding,
    open: spec_fn(Term, Seq<int>) -> int,
    model: LlamaForCausalLm,
    packed: PackedLlamaForCausalLm,
    cache: LlamaKvCache,
    tokens: Term,
    b: int,
    s: int,
)
    requires
        runs_kernels(device, rope, open),
        packed_from(device, rope, model, packed),
        packed.takes(cache, dims_of(tokens)),
        0 <= b < dims_of(tokens)[0],
        0 <= s < dims_of(tokens)[1],
    ensures
        ({
            let t = embedded(tokens, model.embed_tokens.width);
            let n = model.layers@.len() as int;
            let x = stacked(
                device,
                model.layers@,
                |i: int| past_of(cache.layers@[i], i as usize, b, open),
                looked_up(device, tokens, model.embed_tokens.width, b, open),
                n,
            );
            let last = x[dims_of(tokens)[1] - 1];
            let joins = forall|i: int|
                0 <= i < cache.layers@.len() ==> packed.layer_joins(
                    #[trigger] cache.layers@[i],
                    i,
                    dims_of(tokens),
                );
            let grows = forall|i: int|
                0 <= i < cache.layers@.len() ==> packed.layer_grows(
                    #[trigger] cache.layers@[i],
                    i,
                    dims_of(tokens),
                );
            let made = packed_cached_through(packed.layers@, cache.layers@, t, n);
            let fast = kernel_through(packed.layers@, cache.layers@, t, n);
            &&& joins ==> features(packed.logits(made), b, s, open) == logits_of(
                device,
                model,
                x[s],
            ) && features(packed.logits(last_position(made)), b, 0, open) == logits_of(
                device,
                model,
                last,
            )
            &&& grows ==> features(packed.kernel_logits(fast), b, s, open) == logits_of(
                device,
                model,
                x[s],
            ) && features(packed.kernel_logits(last_position(fast)), b, 0, open) == logits_of(
                device,
                model,
                last,
            )
        }),
{
    let t = embedded(tokens, model.embed_tokens.width);
    let n = model.layers@.len() as int;
    let made = packed_cached_through(packed.layers@, cache.layers@, t, n);
    let fast = kernel_through(packed.layers@, cache.layers@, t, n);
    lemma_looked_up(device, rope, open, tokens, model.embed_tokens.width, b);
    lemma_packed_cached_through(device, rope, open, model, packed, cache, tokens, b, n);
    lemma_packed_logits(device, rope, open, model, packed, made, b, s);
    lemma_packed_logits(device, rope, open, model, packed, fast, b, s);
    lemma_packed_logits(device, rope, open, model, packed, last_position(made), b, 0);
    lemma_packed_logits(device, rope, open, model, packed, last_position(fast), b, 0);
    let end = dims_of(tokens)[1] - 1;
    if dims_of(made) == dims_of(t) {
        assert(vectors(made, b, open)[s] == features(made, b, s, open));
        assert(vectors(made, b, open)[end] == features(made, b, end, open));
        lemma_last_features(made, b, open);
    }
    if dims_of(fast) == dims_of(t) {
        assert(vectors(fast, b, open)[s] == features(fast, b, s, open));
        assert(vectors(fast, b, open)[end] == features(fast, b, end, open));
        lemma_last_features(fast, b, open);
    }
}

/// The last position of a value, on its own.
proof fn lemma_last_features(t: Term, b: int, open: spec_fn(Term, Seq<int>) -> int)
    requires
        dims_of(t).len() == 3,
        dims_of(t)[1] > 0,
    ensures
        features(last_position(t), b, 0, open) == features(t, b, dims_of(t)[1] - 1, open),
{
    let end = dims_of(t)[1] - 1;
    assert forall|k: int| 0 <= k < dims_of(t)[2] implies entry(
        last_position(t),
        at_3(b, 0, k),
        open,
    ) == entry(t, at_3(b, end, k), open) by {
        assert(at_3(b, 0, k).update(1, 0 + end) =~= at_3(b, end, k));
    }
    assert(features(last_position(t), b, 0, open) =~= features(t, b, end, open));
}

} // verus!
