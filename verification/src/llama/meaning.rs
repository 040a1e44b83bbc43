//! What a decoder computes, element by element.
//!
//! Programs are lists of operations. Here each operation is taken for what a device computes with it,
//! in exact arithmetic, and the elements that a forward pass ends with are those of a transformer
//! decoder: vectors that go through normalization, attention and a gated feed-forward block, each
//! added to what it was computed from.

use crate::llama::attention::{attended, mask_term, masked_attention, repeated_heads, RotaryLayout};
use crate::llama::cache::{dims_of, value, LlamaKvCache, LlamaLayerCache};
use crate::llama::entries::{
    entry, inside, law_half_split_rotation, law_joined_heads_give_features_back,
    law_joining_keeps_history, law_repeated_heads_are_shared, law_split_heads_take_features,
    narrowed, rotary_entry,
};
use crate::llama::heads::{heads_of, joined, merged, rotated, RotaryEncoding};
use crate::llama::model::{embedded, last_position, through, through_cached, LlamaForCausalLm};
use crate::llama::program::{Op, Parameter, Term};
use crate::llama::standard::{
    gated, lemma_groups, norm_term, sum_term, LlamaAttention, LlamaDecoderLayer, LlamaFeedForward,
    Projected,
};
use crate::llama::steps::{matmul_term, project_term, same_term, swap_term};
use vstd::prelude::*;

verus! {

/// What a device knows and computes: the numbers of a model's weights, and functions of numbers.
pub struct Device {
    /// The weight of a parameter that leads from an input to an output.
    pub weight: spec_fn(Parameter, int, int) -> int,
    /// What a parameter adds to an output.
    pub bias: spec_fn(Parameter, int) -> int,
    /// What a norm multiplies a feature by.
    pub gain: spec_fn(Parameter, int) -> int,
    /// The features of a token.
    pub embedding: spec_fn(int, int) -> int,
    /// A vector divided by its root mean square.
    pub normalize: spec_fn(Seq<int>) -> Seq<int>,
    pub silu: spec_fn(int) -> int,
    /// A number over the square root of a width.
    pub over_root: spec_fn(int, usize) -> int,
    pub softmax: spec_fn(Seq<int>) -> Seq<int>,
    /// The vector of a head, rotated to a position by neighbouring elements.
    pub rotate: spec_fn(Seq<int>, int) -> Seq<int>,
    /// The cosine and the sine of a frequency at a position.
    pub cosine: spec_fn(int, int) -> int,
    pub sine: spec_fn(int, int) -> int,
    /// What is added to a score that must not count.
    pub masked: int,
}

/// The sum of the first `n` numbers.
pub open spec fn total(f: spec_fn(int) -> int, n: int) -> int
    decreases n,
{
    if n <= 0 {
        0
    } else {
        total(f, n - 1) + f(n - 1)
    }
}

/// An index into values of three dimensions.
pub open spec fn at_3(b: int, s: int, k: int) -> Seq<int> {
    seq![b, s, k]
}

/// An index into values of four dimensions.
pub open spec fn at_4(b: int, h: int, s: int, k: int) -> Seq<int> {
    seq![b, h, s, k]
}

/// The features of a value at a position.
pub open spec fn features(t: Term, b: int, s: int, open: spec_fn(Term, Seq<int>) -> int) -> Seq<int> {
    Seq::new(dims_of(t)[2] as nat, |k: int| entry(t, at_3(b, s, k), open))
}

/// The vector of a head at a position.
pub open spec fn head_vector(
    t: Term,
    b: int,
    h: int,
    s: int,
    open: spec_fn(Term, Seq<int>) -> int,
) -> Seq<int> {
    Seq::new(dims_of(t)[3] as nat, |k: int| entry(t, at_4(b, h, s, k), open))
}

/// `open` says of each operation what the device computes with it.
pub open spec fn runs_on(
    device: Device,
    rope: RotaryEncoding,
    open: spec_fn(Term, Seq<int>) -> int,
) -> bool {
    &&& forall|p: Parameter, x: Term, dims: Seq<usize>, b: int, s: int, k: int| #[trigger]
        open(value(Op::Norm(p, x), dims), at_3(b, s, k)) == (device.gain)(p, k) * (
        device.normalize)(features(x, b, s, open))[k]
    &&& forall|p: Parameter, x: Term, dims: Seq<usize>, b: int, s: int, o: int| #[trigger]
        open(value(Op::Project(p, x), dims), at_3(b, s, o)) == (device.bias)(p, o) + total(
            |k: int| (device.weight)(p, o, k) * features(x, b, s, open)[k],
            dims_of(x)[2] as int,
        )
    &&& forall|x: Term, dims: Seq<usize>, at: Seq<int>| #[trigger]
        open(value(Op::Silu(x), dims), at) == (device.silu)(entry(x, at, open))
    &&& forall|x: Term, y: Term, dims: Seq<usize>, b: int, h: int, i: int, j: int| #[trigger]
        open(value(Op::Matmul(x, y), dims), at_4(b, h, i, j)) == total(
            |k: int| entry(x, at_4(b, h, i, k), open) * entry(y, at_4(b, h, k, j), open),
            dims_of(x)[3] as int,
        )
    &&& forall|x: Term, n: usize, dims: Seq<usize>, at: Seq<int>| #[trigger]
        open(value(Op::ScaleByInverseRoot(x, n), dims), at) == (device.over_root)(
            entry(x, at, open),
            n,
        )
    &&& forall|x: Term, dims: Seq<usize>, b: int, h: int, i: int, j: int| #[trigger]
        open(value(Op::Softmax(x, 3), dims), at_4(b, h, i, j)) == (device.softmax)(
            head_vector(x, b, h, i, open),
        )[j]
    &&& forall|x: Term, dims: Seq<usize>, at: Seq<int>| #[trigger]
        open(value(Op::ToSingle(x), dims), at) == entry(x, at, open)
    &&& forall|x: Term, y: Term, dims: Seq<usize>, at: Seq<int>| #[trigger]
        open(value(Op::ToTypeOf(x, y), dims), at) == entry(x, at, open)
    &&& forall|start: usize, dims: Seq<usize>, i: int, j: int| #[trigger]
        open(value(Op::CausalMask { start }, dims), at_4(0, 0, i, j)) == if j <= start + i {
            0
        } else {
            device.masked
        }
    &&& forall|x: Term, start: usize, dims: Seq<usize>, b: int, h: int, s: int, j: int| #[trigger]
        open(value(Op::Rotate(x, start), dims), at_4(b, h, s, j)) == (device.rotate)(
            head_vector(x, b, h, s, open),
            start + s,
        )[j]
    &&& forall|x: Term, dims: Seq<usize>, b: int, s: int, k: int| #[trigger]
        open(value(Op::Embed(x), dims), at_3(b, s, k)) == (device.embedding)(
            entry(x, seq![b, s], open),
            k,
        )
    &&& forall|position: int, i: int| #[trigger]
        rotary_entry(rope.positions, rope.width, position, i, 0, open) == (device.cosine)(
            position,
            i,
        )
    &&& forall|position: int, i: int| #[trigger]
        rotary_entry(rope.positions, rope.width, position, i, 1, open) == (device.sine)(
            position,
            i,
        )
}

/// A vector after a norm.
pub open spec fn normed(device: Device, p: Parameter, x: Seq<int>) -> Seq<int> {
    Seq::new(x.len(), |k: int| (device.gain)(p, k) * (device.normalize)(x)[k])
}

/// A vector after a linear map.
pub open spec fn mapped(device: Device, p: Parameter, outputs: nat, x: Seq<int>) -> Seq<int> {
    Seq::new(
        outputs,
        |o: int|
            (device.bias)(p, o) + total(
                |k: int| (device.weight)(p, o, k) * x[k],
                x.len() as int,
            ),
    )
}

/// The sum of two vectors.
pub open spec fn summed(x: Seq<int>, y: Seq<int>) -> Seq<int> {
    Seq::new(x.len(), |k: int| x[k] + y[k])
}

/// The part of a vector that belongs to a head.
pub open spec fn head_of(x: Seq<int>, h: int, width: int) -> Seq<int> {
    Seq::new(width as nat, |j: int| x[h * width + j])
}

/// The vector of a head, rotated to a position: by neighbouring elements, or each half against the
/// other.
pub open spec fn turned(
    device: Device,
    layout: RotaryLayout,
    x: Seq<int>,
    position: int,
) -> Seq<int> {
    match layout {
        RotaryLayout::Interleaved => Seq::new(
            x.len(),
            |j: int| (device.rotate)(x, position)[j],
        ),
        RotaryLayout::HalfSplit => {
            let half = x.len() as int / 2;
            Seq::new(
                x.len(),
                |j: int|
                    if j < half {
                        x[j] * (device.cosine)(position, j % half) - x[j + half] * (device.sine)(
                            position,
                            j % half,
                        )
                    } else {
                        x[j] * (device.cosine)(position, j % half) + x[j - half] * (device.sine)(
                            position,
                            j % half,
                        )
                    },
            )
        },
    }
}

/// The score of a key for a query: their product over the root of their width, and masked where the
/// key stands behind the query.
pub open spec fn score(
    device: Device,
    query: Seq<int>,
    key: Seq<int>,
    position: int,
    place: int,
) -> int {
    (device.over_root)(total(|c: int| query[c] * key[c], query.len() as int), query.len() as usize)
        + if place <= position {
        0
    } else {
        device.masked
    }
}

/// What a query at a position makes of keys and values: the values, each by the share that its key
/// has.
pub open spec fn attend(
    device: Device,
    query: Seq<int>,
    keys: Seq<Seq<int>>,
    values: Seq<Seq<int>>,
    position: int,
) -> Seq<int> {
    let shares = (device.softmax)(
        Seq::new(keys.len(), |m: int| score(device, query, keys[m], position, m)),
    );
    Seq::new(
        query.len(),
        |j: int| total(|m: int| shares[m] * values[m][j], keys.len() as int),
    )
}

/// The keys and values that a layer has of earlier positions, by head and position.
pub struct Past {
    pub length: int,
    pub key: spec_fn(int, int) -> Seq<int>,
    pub value: spec_fn(int, int) -> Seq<int>,
}

/// The query of a head at a position.
pub open spec fn query_of(
    device: Device,
    attention: LlamaAttention,
    past: Past,
    seen: Seq<Seq<int>>,
    h: int,
    s: int,
) -> Seq<int> {
    turned(
        device,
        attention.rotary_layout,
        head_of(
            mapped(
                device,
                Parameter::Query(attention.layer),
                attention.q_proj.outputs as nat,
                seen[s],
            ),
            h,
            attention.head_dimension as int,
        ),
        past.length + s,
    )
}

/// The keys of a KV head: those of earlier positions, and those of the vectors that the layer sees.
pub open spec fn keys_of(
    device: Device,
    attention: LlamaAttention,
    past: Past,
    seen: Seq<Seq<int>>,
    h: int,
) -> Seq<Seq<int>> {
    Seq::new(
        (past.length + seen.len()) as nat,
        |m: int|
            if m < past.length {
                (past.key)(h, m)
            } else {
                turned(
                    device,
                    attention.rotary_layout,
                    head_of(
                        mapped(
                            device,
                            Parameter::Key(attention.layer),
                            attention.k_proj.outputs as nat,
                            seen[m - past.length],
                        ),
                        h,
                        attention.head_dimension as int,
                    ),
                    m,
                )
            },
    )
}

/// The values of a KV head.
pub open spec fn values_of(
    device: Device,
    attention: LlamaAttention,
    past: Past,
    seen: Seq<Seq<int>>,
    h: int,
) -> Seq<Seq<int>> {
    Seq::new(
        (past.length + seen.len()) as nat,
        |m: int|
            if m < past.length {
                (past.value)(h, m)
            } else {
                head_of(
                    mapped(
                        device,
                        Parameter::Value(attention.layer),
                        attention.v_proj.outputs as nat,
                        seen[m - past.length],
                    ),
                    h,
                    attention.head_dimension as int,
                )
            },
    )
}

/// What a query head makes of the keys and values that its group shares.
pub open spec fn head_context(
    device: Device,
    attention: LlamaAttention,
    past: Past,
    seen: Seq<Seq<int>>,
    h: int,
    s: int,
) -> Seq<int> {
    let groups = attention.num_query_heads as int / attention.num_kv_heads as int;
    attend(
        device,
        query_of(device, attention, past, seen, h, s),
        keys_of(device, attention, past, seen, h / groups),
        values_of(device, attention, past, seen, h / groups),
        past.length + s,
    )
}

/// What attention makes of the vectors that it sees: each query head attends to the keys and values
/// of the KV head that its group shares, and the heads are mapped back together.
pub open spec fn attention_of(
    device: Device,
    attention: LlamaAttention,
    past: Past,
    seen: Seq<Seq<int>>,
    s: int,
) -> Seq<int> {
    let width = attention.head_dimension as int;
    mapped(
        device,
        Parameter::Output(attention.layer),
        attention.o_proj.outputs as nat,
        Seq::new(
            (attention.num_query_heads * width) as nat,
            |e: int|
                head_context(device, attention, past, seen, e / width, s)[e % width],
        ),
    )
}

/// What the feed-forward block makes of a vector: features that a gate lets through, mapped back.
pub open spec fn feed_forward_of(device: Device, mlp: LlamaFeedForward, x: Seq<int>) -> Seq<int> {
    let gate = mapped(device, Parameter::Gate(mlp.layer), mlp.gate_proj.outputs as nat, x);
    let up = mapped(device, Parameter::Up(mlp.layer), mlp.up_proj.outputs as nat, x);
    mapped(
        device,
        Parameter::Down(mlp.layer),
        mlp.down_proj.outputs as nat,
        Seq::new(gate.len(), |k: int| (device.silu)(gate[k]) * up[k]),
    )
}

/// What a decoder layer makes of vectors: `h + mlp(post_norm(h))`, where `h` is
/// `x + attention(input_norm(x))`.
pub open spec fn layer_of_vectors(
    device: Device,
    layer: LlamaDecoderLayer,
    past: Past,
    x: Seq<Seq<int>>,
) -> Seq<Seq<int>> {
    let n = layer.self_attn.layer;
    let seen = Seq::new(x.len(), |s: int| normed(device, Parameter::InputNorm(n), x[s]));
    Seq::new(
        x.len(),
        |s: int|
            {
                let h = summed(x[s], attention_of(device, layer.self_attn, past, seen, s));
                summed(
                    h,
                    feed_forward_of(device, layer.mlp, normed(device, Parameter::PostNorm(n), h)),
                )
            },
    )
}

/// The vectors of a value.
pub open spec fn vectors(t: Term, b: int, open: spec_fn(Term, Seq<int>) -> int) -> Seq<Seq<int>> {
    Seq::new(dims_of(t)[1] as nat, |s: int| features(t, b, s, open))
}

/// What a layer's cache holds of earlier positions.
pub open spec fn past_of(
    cache: LlamaLayerCache,
    layer: usize,
    b: int,
    open: spec_fn(Term, Seq<int>) -> int,
) -> Past {
    Past {
        length: cache.sequence_length as int,
        key: |h: int, m: int| head_vector(cache.held(Op::CachedKey(layer)), b, h, m, open),
        value: |h: int, m: int| head_vector(cache.held(Op::CachedValue(layer)), b, h, m, open),
    }
}

pub proof fn lemma_total_same(f: spec_fn(int) -> int, g: spec_fn(int) -> int, n: int)
    requires
        forall|k: int| 0 <= k < n ==> #[trigger] f(k) == g(k),
    ensures
        total(f, n) == total(g, n),
    decreases n,
{
    if n > 0 {
        lemma_total_same(f, g, n - 1);
    }
}

pub proof fn lemma_inside_3(d: Seq<usize>, b: int, s: int, k: int)
    requires
        d.len() == 3,
        0 <= b < d[0],
        0 <= s < d[1],
        0 <= k < d[2],
    ensures
        inside(d, at_3(b, s, k)),
        narrowed(d, at_3(b, s, k)) == at_3(b, s, k),
{
    assert(narrowed(d, at_3(b, s, k)) =~= at_3(b, s, k));
}

pub proof fn lemma_inside_4(d: Seq<usize>, b: int, h: int, s: int, k: int)
    requires
        d.len() == 4,
        0 <= b < d[0],
        0 <= h < d[1],
        0 <= s < d[2],
        0 <= k < d[3],
    ensures
        inside(d, at_4(b, h, s, k)),
        narrowed(d, at_4(b, h, s, k)) == at_4(b, h, s, k),
{
    assert(narrowed(d, at_4(b, h, s, k)) =~= at_4(b, h, s, k));
}

/// A linear map, vector by vector.
pub proof fn lemma_mapped(
    device: Device,
    rope: RotaryEncoding,
    open: spec_fn(Term, Seq<int>) -> int,
    p: Parameter,
    t: Term,
    outputs: usize,
    b: int,
    s: int,
)
    requires
        runs_on(device, rope, open),
    ensures
        features(project_term(p, t, outputs), b, s, open) == mapped(
            device,
            p,
            outputs as nat,
            features(t, b, s, open),
        ),
{
    let x = features(t, b, s, open);
    let made = project_term(p, t, outputs);
    assert forall|o: int| 0 <= o < outputs implies entry(made, at_3(b, s, o), open) == mapped(
        device,
        p,
        outputs as nat,
        x,
    )[o] by {
        assert(entry(made, at_3(b, s, o), open) == open(
            value(Op::Project(p, t), dims_of(made)),
            at_3(b, s, o),
        ));
        lemma_total_same(
            |k: int| (device.weight)(p, o, k) * features(t, b, s, open)[k],
            |k: int| (device.weight)(p, o, k) * x[k],
            dims_of(t)[2] as int,
        );
    }
    assert(features(made, b, s, open) =~= mapped(device, p, outputs as nat, x));
}

/// A norm, vector by vector.
pub proof fn lemma_normed(
    device: Device,
    rope: RotaryEncoding,
    open: spec_fn(Term, Seq<int>) -> int,
    p: Parameter,
    t: Term,
    b: int,
    s: int,
)
    requires
        runs_on(device, rope, open),
    ensures
        features(norm_term(p, t), b, s, open) == normed(device, p, features(t, b, s, open)),
{
    let made = norm_term(p, t);
    let x = features(t, b, s, open);
    assert forall|k: int| 0 <= k < x.len() implies entry(made, at_3(b, s, k), open) == normed(
        device,
        p,
        x,
    )[k] by {
        assert(entry(made, at_3(b, s, k), open) == open(
            value(Op::Norm(p, t), dims_of(made)),
            at_3(b, s, k),
        ));
    }
    assert(features(made, b, s, open) =~= normed(device, p, x));
}

/// A sum, vector by vector.
pub proof fn lemma_summed(
    x: Term,
    y: Term,
    b: int,
    s: int,
    open: spec_fn(Term, Seq<int>) -> int,
)
    requires
        dims_of(x).len() == 3,
        dims_of(y) == dims_of(x),
        0 <= b < dims_of(x)[0],
        0 <= s < dims_of(x)[1],
    ensures
        features(sum_term(x, y), b, s, open) == summed(
            features(x, b, s, open),
            features(y, b, s, open),
        ),
{
    assert forall|k: int| 0 <= k < dims_of(x)[2] implies entry(sum_term(x, y), at_3(b, s, k), open)
        == entry(x, at_3(b, s, k), open) + entry(y, at_3(b, s, k), open) by {
        lemma_inside_3(dims_of(x), b, s, k);
    }
    assert(features(sum_term(x, y), b, s, open) =~= summed(
        features(x, b, s, open),
        features(y, b, s, open),
    ));
}

/// The vector of a head of projected features.
pub proof fn lemma_head(
    t: Term,
    heads: usize,
    width: usize,
    b: int,
    h: int,
    s: int,
    open: spec_fn(Term, Seq<int>) -> int,
)
    requires
        dims_of(t).len() == 3,
        dims_of(t)[2] == heads * width,
        0 <= b < dims_of(t)[0],
        0 <= s < dims_of(t)[1],
        0 <= h < heads,
    ensures
        dims_of(heads_of(t, heads, width)) == seq![dims_of(t)[0], heads, dims_of(t)[1], width],
        head_vector(heads_of(t, heads, width), b, h, s, open) == head_of(
            features(t, b, s, open),
            h,
            width as int,
        ),
{
    let made = heads_of(t, heads, width);
    let d = dims_of(t);
    let all = seq![d[0], heads, d[1], width];
    assert(dims_of(made) =~= all);
    let x = features(t, b, s, open);
    assert forall|k: int| 0 <= k < width implies entry(made, at_4(b, h, s, k), open) == x[h * width
        + k] by {
        lemma_inside_4(all, b, h, s, k);
        law_split_heads_take_features(t, heads, width, at_4(b, h, s, k), open);
        assert(0 <= h * width + k < heads * width) by (nonlinear_arith)
            requires
                0 <= h < heads,
                0 <= k < width,
        ;
    }
    assert(head_vector(made, b, h, s, open) =~= head_of(x, h, width as int));
}

/// The vector of a head after its rotation.
proof fn lemma_turned(
    device: Device,
    rope: RotaryEncoding,
    open: spec_fn(Term, Seq<int>) -> int,
    layout: RotaryLayout,
    t: Term,
    start: usize,
    b: int,
    h: int,
    s: int,
)
    requires
        runs_on(device, rope, open),
        dims_of(t).len() == 4,
        dims_of(t)[3] == rope.width,
        dims_of(t)[3] % 2 == 0,
        start + dims_of(t)[2] <= rope.positions,
        0 <= b < dims_of(t)[0],
        0 <= h < dims_of(t)[1],
        0 <= s < dims_of(t)[2],
    ensures
        dims_of(rotated(layout, rope, t, start)) == dims_of(t),
        head_vector(rotated(layout, rope, t, start), b, h, s, open) == turned(
            device,
            layout,
            head_vector(t, b, h, s, open),
            start + s,
        ),
{
    let made = rotated(layout, rope, t, start);
    let x = head_vector(t, b, h, s, open);
    let d = dims_of(t);
    assert(dims_of(made) =~= d) by {
        reveal(crate::llama::attention::half_split_rotated);
    }
    assert forall|j: int| 0 <= j < d[3] implies entry(made, at_4(b, h, s, j), open) == turned(
        device,
        layout,
        x,
        start + s,
    )[j] by {
        lemma_inside_4(d, b, h, s, j);
        match layout {
            RotaryLayout::Interleaved => {
                assert(entry(made, at_4(b, h, s, j), open) == open(
                    value(Op::Rotate(t, start), d),
                    at_4(b, h, s, j),
                ));
            },
            RotaryLayout::HalfSplit => {
                let at = at_4(b, h, s, j);
                let half = d[3] as int / 2;
                law_half_split_rotation(t, rope.positions, start, at, open);
                assert(at.update(3, at[3] + half) =~= at_4(b, h, s, j + half));
                assert(at.update(3, at[3] - half) =~= at_4(b, h, s, j - half));
                assert(rotary_entry(rope.positions, rope.width, start + s, j % half, 0, open) == (
                device.cosine)(start + s, j % half));
                assert(rotary_entry(rope.positions, rope.width, start + s, j % half, 1, open) == (
                device.sine)(start + s, j % half));
            },
        }
    }
    assert(head_vector(made, b, h, s, open) =~= turned(device, layout, x, start + s));
}

/// The vectors of a head, one for each position.
pub open spec fn head_vectors(
    t: Term,
    b: int,
    h: int,
    open: spec_fn(Term, Seq<int>) -> int,
) -> Seq<Seq<int>> {
    Seq::new(dims_of(t)[2] as nat, |m: int| head_vector(t, b, h, m, open))
}

/// Causal attention, vector by vector.
pub proof fn lemma_attended(
    device: Device,
    rope: RotaryEncoding,
    open: spec_fn(Term, Seq<int>) -> int,
    query: Term,
    key: Term,
    values: Term,
    start: usize,
    b: int,
    h: int,
    i: int,
)
    requires
        runs_on(device, rope, open),
        dims_of(query).len() == 4,
        dims_of(key).len() == 4,
        dims_of(values) == dims_of(key),
        dims_of(query)[0] == dims_of(key)[0],
        dims_of(query)[1] == dims_of(key)[1],
        dims_of(query)[3] == dims_of(key)[3],
        0 <= b < dims_of(query)[0],
        0 <= h < dims_of(query)[1],
        0 <= i < dims_of(query)[2],
    ensures
        dims_of(attended(query, key, values, start)) == dims_of(query),
        head_vector(attended(query, key, values, start), b, h, i, open) == attend(
            device,
            head_vector(query, b, h, i, open),
            head_vectors(key, b, h, open),
            head_vectors(values, b, h, open),
            start + i,
        ),
{
    reveal(masked_attention);
    let d = dims_of(query);
    let e = dims_of(key);
    let mask = mask_term(d[2], e[2], start);
    let typed = same_term(Op::ToTypeOf(mask, query), mask);
    let transposed = swap_term(key, 2, 3);
    let product = matmul_term(query, transposed);
    let scaled = same_term(Op::ScaleByInverseRoot(product, d[3]), product);
    let scores = same_term(Op::Add(scaled, typed), scaled);
    let single = same_term(Op::ToSingle(scores), scores);
    let shares = same_term(Op::Softmax(single, 3), single);
    let probabilities = same_term(Op::ToTypeOf(shares, values), shares);
    let made = matmul_term(probabilities, values);
    assert(attended(query, key, values, start) == made);
    assert(dims_of(transposed) =~= seq![e[0], e[1], e[3], e[2]]);
    assert(dims_of(made) =~= d);
    let q = head_vector(query, b, h, i, open);
    let ks = head_vectors(key, b, h, open);
    let vs = head_vectors(values, b, h, open);
    let rows = Seq::new(ks.len(), |m: int| score(device, q, ks[m], start + i, m));
    assert forall|m: int| 0 <= m < e[2] implies entry(single, at_4(b, h, i, m), open)
        == rows[m] by {
        let at = at_4(b, h, i, m);
        assert(entry(single, at, open) == open(value(Op::ToSingle(scores), dims_of(scores)), at));
        let small = at_4(0, 0, i, m);
        assert(narrowed(dims_of(typed), at) =~= small);
        assert(entry(typed, small, open) == open(
            value(Op::ToTypeOf(mask, query), dims_of(mask)),
            small,
        ));
        assert(entry(mask, small, open) == open(
            value(Op::CausalMask { start }, dims_of(mask)),
            small,
        ));
        assert(entry(scaled, at, open) == open(
            value(Op::ScaleByInverseRoot(product, d[3]), dims_of(product)),
            at,
        ));
        assert(entry(product, at, open) == open(
            value(Op::Matmul(query, transposed), dims_of(product)),
            at,
        ));
        let f = |k: int| entry(query, at_4(b, h, i, k), open) * entry(
            transposed,
            at_4(b, h, k, m),
            open,
        );
        let g = |c: int| q[c] * ks[m][c];
        assert forall|k: int| 0 <= k < d[3] implies #[trigger] f(k) == g(k) by {
            let back = at_4(b, h, k, m);
            assert(back.update(2, back[3]).update(3, back[2]) =~= at_4(b, h, m, k));
        }
        lemma_total_same(f, g, d[3] as int);
    }
    assert(head_vector(single, b, h, i, open) =~= rows);
    let part = (device.softmax)(rows);
    assert forall|j: int| 0 <= j < d[3] implies entry(made, at_4(b, h, i, j), open) == attend(
        device,
        q,
        ks,
        vs,
        start + i,
    )[j] by {
        assert(entry(made, at_4(b, h, i, j), open) == open(
            value(Op::Matmul(probabilities, values), dims_of(made)),
            at_4(b, h, i, j),
        ));
        let f = |k: int| entry(probabilities, at_4(b, h, i, k), open) * entry(
            values,
            at_4(b, h, k, j),
            open,
        );
        let g = |m: int| part[m] * vs[m][j];
        assert forall|k: int| 0 <= k < e[2] implies #[trigger] f(k) == g(k) by {
            let at = at_4(b, h, i, k);
            assert(entry(probabilities, at, open) == open(
                value(Op::ToTypeOf(shares, values), dims_of(shares)),
                at,
            ));
            assert(entry(shares, at, open) == open(
                value(Op::Softmax(single, 3), dims_of(single)),
                at,
            ));
        }
        lemma_total_same(f, g, e[2] as int);
    }
    assert(head_vector(made, b, h, i, open) =~= attend(device, q, ks, vs, start + i));
}

/// What repeated heads hold is what the KV head of their group holds.
pub proof fn lemma_shared(
    t: Term,
    repeats: usize,
    b: int,
    h: int,
    open: spec_fn(Term, Seq<int>) -> int,
)
    requires
        dims_of(t).len() == 4,
        repeats > 0,
        dims_of(t)[1] * repeats <= usize::MAX,
        0 <= b < dims_of(t)[0],
        0 <= h < dims_of(t)[1] * repeats,
    ensures
        dims_of(repeated_heads(t, repeats)) == seq![
            dims_of(t)[0],
            (dims_of(t)[1] * repeats) as usize,
            dims_of(t)[2],
            dims_of(t)[3],
        ],
        head_vectors(repeated_heads(t, repeats), b, h, open) == head_vectors(
            t,
            b,
            h / repeats as int,
            open,
        ),
{
    let made = repeated_heads(t, repeats);
    let d = dims_of(t);
    let all = seq![d[0], (d[1] * repeats) as usize, d[2], d[3]];
    assert(dims_of(made) =~= all) by {
        reveal(repeated_heads);
        assert(repeats == 1 ==> d[1] * repeats == d[1]) by (nonlinear_arith);
    }
    let from = h / repeats as int;
    assert forall|m: int| 0 <= m < d[2] implies head_vector(made, b, h, m, open) == head_vector(
        t,
        b,
        from,
        m,
        open,
    ) by {
        assert forall|j: int| 0 <= j < d[3] implies entry(made, at_4(b, h, m, j), open) == entry(
            t,
            at_4(b, from, m, j),
            open,
        ) by {
            lemma_inside_4(all, b, h, m, j);
            law_repeated_heads_are_shared(t, repeats, at_4(b, h, m, j), open);
            assert(at_4(b, h, m, j).update(1, from) =~= at_4(b, from, m, j));
        }
        assert(head_vector(made, b, h, m, open) =~= head_vector(t, b, from, m, open));
    }
    assert(head_vectors(made, b, h, open) =~= head_vectors(t, b, from, open));
}

/// Joined heads, mapped back, are what attention returns.
pub proof fn lemma_output(
    device: Device,
    open: spec_fn(Term, Seq<int>) -> int,
    attention: LlamaAttention,
    past: Past,
    seen: Seq<Seq<int>>,
    context: Term,
    b: int,
    s: int,
)
    requires
        runs_on(device, attention.rope, open),
        attention.wf(),
        dims_of(context).len() == 4,
        dims_of(context)[1] == attention.num_query_heads,
        dims_of(context)[3] == attention.head_dimension,
        0 <= b < dims_of(context)[0],
        0 <= s < dims_of(context)[2],
        forall|h: int|
            0 <= h < attention.num_query_heads ==> #[trigger] head_vector(context, b, h, s, open)
                == head_context(device, attention, past, seen, h, s),
    ensures
        ({
            let p = Parameter::Output(attention.layer);
            let outputs = attention.o_proj.outputs;
            let want = attention_of(device, attention, past, seen, s);
            let dims = seq![dims_of(context)[0], dims_of(context)[2], outputs];
            &&& dims_of(project_term(p, joined(context), outputs)) == dims
            &&& dims_of(project_term(p, merged(context), outputs)) == dims
            &&& features(project_term(p, joined(context), outputs), b, s, open) == want
            &&& features(project_term(p, merged(context), outputs), b, s, open) == want
        }),
{
    let heads = attention.num_query_heads;
    let width = attention.head_dimension as int;
    let p = Parameter::Output(attention.layer);
    let outputs = attention.o_proj.outputs;
    let d = dims_of(context);
    let size = (heads * width) as usize;
    assert(dims_of(joined(context)) =~= seq![d[0], d[2], size]);
    assert(dims_of(merged(context)) =~= seq![d[0], d[2], size]);
    let want = Seq::new(
        (heads * width) as nat,
        |e: int| head_context(device, attention, past, seen, e / width, s)[e % width],
    );
    assert forall|e: int| 0 <= e < heads * width implies entry(
        joined(context),
        at_3(b, s, e),
        open,
    ) == want[e] && entry(merged(context), at_3(b, s, e), open) == want[e] by {
        let h = e / width;
        let j = e % width;
        assert(0 <= h < heads && 0 <= j < width && h * width + j == e) by (nonlinear_arith)
            requires
                0 <= e < heads * width,
                width > 0,
                h == e / width,
                j == e % width,
        ;
        lemma_inside_4(d, b, h, s, j);
        law_joined_heads_give_features_back(context, at_4(b, h, s, j), open);
        assert(head_vector(context, b, h, s, open)[j] == entry(context, at_4(b, h, s, j), open));
    }
    assert(features(joined(context), b, s, open) =~= want);
    assert(features(merged(context), b, s, open) =~= want);
    lemma_mapped(device, attention.rope, open, p, joined(context), outputs, b, s);
    lemma_mapped(device, attention.rope, open, p, merged(context), outputs, b, s);
    assert(dims_of(project_term(p, joined(context), outputs)) =~= seq![d[0], d[2], outputs]);
    assert(dims_of(project_term(p, merged(context), outputs)) =~= seq![d[0], d[2], outputs]);
}

/// The keys and values of a layer stand in two values.
pub open spec fn holds_all(
    device: Device,
    attention: LlamaAttention,
    past: Past,
    seen: Seq<Seq<int>>,
    key: Term,
    values: Term,
    b: int,
    open: spec_fn(Term, Seq<int>) -> int,
) -> bool {
    &&& forall|h: int|
        0 <= h < attention.num_kv_heads ==> #[trigger] head_vectors(key, b, h, open) == keys_of(
            device,
            attention,
            past,
            seen,
            h,
        )
    &&& forall|h: int|
        0 <= h < attention.num_kv_heads ==> #[trigger] head_vectors(values, b, h, open)
            == values_of(device, attention, past, seen, h)
}

/// Causal attention over shared heads gives each query head its context.
pub proof fn lemma_context(
    device: Device,
    open: spec_fn(Term, Seq<int>) -> int,
    attention: LlamaAttention,
    past: Past,
    seen: Seq<Seq<int>>,
    query: Term,
    key: Term,
    values: Term,
    start: usize,
    b: int,
    s: int,
    h: int,
)
    requires
        runs_on(device, attention.rope, open),
        attention.wf(),
        start == past.length,
        dims_of(query).len() == 4,
        dims_of(query)[1] == attention.num_query_heads,
        dims_of(query)[3] == attention.head_dimension,
        dims_of(key) == seq![
            dims_of(query)[0],
            attention.num_kv_heads,
            dims_of(key)[2],
            attention.head_dimension,
        ],
        dims_of(values) == dims_of(key),
        0 <= b < dims_of(query)[0],
        0 <= s < dims_of(query)[2],
        0 <= h < attention.num_query_heads,
        head_vector(query, b, h, s, open) == query_of(device, attention, past, seen, h, s),
        holds_all(device, attention, past, seen, key, values, b, open),
    ensures
        ({
            let groups = (attention.num_query_heads / attention.num_kv_heads) as usize;
            let context = attended(
                query,
                repeated_heads(key, groups),
                repeated_heads(values, groups),
                start,
            );
            &&& dims_of(context) == dims_of(query)
            &&& head_vector(context, b, h, s, open) == head_context(
                device,
                attention,
                past,
                seen,
                h,
                s,
            )
        }),
{
    let heads = attention.num_query_heads;
    let groups = (heads / attention.num_kv_heads) as usize;
    lemma_groups(heads, attention.num_kv_heads, attention.head_dimension);
    let keys = repeated_heads(key, groups);
    let shown = repeated_heads(values, groups);
    let shared = h / groups as int;
    assert(0 <= shared < attention.num_kv_heads) by (nonlinear_arith)
        requires
            0 <= h < heads,
            heads == attention.num_kv_heads * groups,
            groups > 0,
            shared == h / groups as int,
    ;
    lemma_shared(key, groups, b, h, open);
    lemma_shared(values, groups, b, h, open);
    lemma_attended(device, attention.rope, open, query, keys, shown, start, b, h, s);
    assert(head_vectors(key, b, shared, open) == keys_of(device, attention, past, seen, shared));
    assert(head_vectors(values, b, shared, open) == values_of(
        device,
        attention,
        past,
        seen,
        shared,
    ));
}

/// A cache stands for what is known of earlier positions.
pub open spec fn remembers(
    past: Past,
    cache: LlamaLayerCache,
    layer: usize,
    b: int,
    open: spec_fn(Term, Seq<int>) -> int,
) -> bool {
    &&& past.length == cache.sequence_length
    &&& forall|h: int, m: int|
        0 <= m < past.length ==> #[trigger] (past.key)(h, m) == head_vector(
            cache.held(Op::CachedKey(layer)),
            b,
            h,
            m,
            open,
        )
    &&& forall|h: int, m: int|
        0 <= m < past.length ==> #[trigger] (past.value)(h, m) == head_vector(
            cache.held(Op::CachedValue(layer)),
            b,
            h,
            m,
            open,
        )
}

/// An attention's cache can take what the attention makes of an input.
pub open spec fn fits(attention: LlamaAttention, input: Term, cache: LlamaLayerCache) -> bool {
    &&& attention.wf()
    &&& attention.rope.width == attention.head_dimension
    &&& attention.takes(dims_of(input), cache.sequence_length)
    &&& cache.wf()
    &&& cache.storage_capacity == cache.sequence_length
    &&& cache.accepts(attention.key_dims(dims_of(input)))
}

/// What a cache holds of a head once new vectors were appended.
proof fn lemma_appended(
    cache: LlamaLayerCache,
    op: Op<Term>,
    t: Term,
    b: int,
    h: int,
    m: int,
    open: spec_fn(Term, Seq<int>) -> int,
)
    requires
        cache.wf(),
        cache.storage_capacity == cache.sequence_length,
        cache.accepts(dims_of(t)),
        op is CachedKey || op is CachedValue,
        0 <= m < cache.sequence_length + dims_of(t)[2],
    ensures
        dims_of(cache.appended(op, t)) == dims_of(t).update(
            2,
            (cache.sequence_length + dims_of(t)[2]) as usize,
        ),
        head_vector(cache.appended(op, t), b, h, m, open) == if m < cache.sequence_length {
            head_vector(cache.held(op), b, h, m, open)
        } else {
            head_vector(t, b, h, m - cache.sequence_length, open)
        },
{
    let all = cache.appended(op, t);
    let length = cache.sequence_length;
    assert(dims_of(all) =~= dims_of(t).update(2, (length + dims_of(t)[2]) as usize));
    let want = if m < length {
        head_vector(cache.held(op), b, h, m, open)
    } else {
        head_vector(t, b, h, m - length, open)
    };
    assert forall|j: int| 0 <= j < dims_of(t)[3] implies entry(all, at_4(b, h, m, j), open)
        == want[j] by {
        law_joining_keeps_history(cache, op, t, at_4(b, h, m, j), open);
        assert(at_4(b, h, m, j).update(2, m - length) =~= at_4(b, h, m - length, j));
    }
    assert(head_vector(all, b, h, m, open) =~= want);
}

/// Queries, keys and values are those of the vectors that an attention sees, from a position on.
pub open spec fn projects(
    device: Device,
    attention: LlamaAttention,
    past: Past,
    seen: Seq<Seq<int>>,
    p: Projected,
    b: int,
    open: spec_fn(Term, Seq<int>) -> int,
) -> bool {
    &&& forall|h: int, s: int|
        0 <= h < attention.num_query_heads && 0 <= s < seen.len() ==> #[trigger] head_vector(
            p.query,
            b,
            h,
            s,
            open,
        ) == query_of(device, attention, past, seen, h, s)
    &&& forall|h: int, s: int|
        0 <= h < attention.num_kv_heads && 0 <= s < seen.len() ==> #[trigger] head_vector(
            p.key,
            b,
            h,
            s,
            open,
        ) == keys_of(device, attention, past, seen, h)[past.length + s]
    &&& forall|h: int, s: int|
        0 <= h < attention.num_kv_heads && 0 <= s < seen.len() ==> #[trigger] head_vector(
            p.value,
            b,
            h,
            s,
            open,
        ) == values_of(device, attention, past, seen, h)[past.length + s]
}

/// The shapes of queries, keys and values of an input.
pub open spec fn shaped(attention: LlamaAttention, p: Projected, dims: Seq<usize>) -> bool {
    &&& dims_of(p.query) == seq![
        dims[0],
        attention.num_query_heads,
        dims[1],
        attention.head_dimension,
    ]
    &&& dims_of(p.key) == attention.key_dims(dims)
    &&& dims_of(p.value) == attention.key_dims(dims)
}

/// Projected features, in heads and rotated, are queries, keys and values.
pub proof fn lemma_projects(
    device: Device,
    open: spec_fn(Term, Seq<int>) -> int,
    attention: LlamaAttention,
    past: Past,
    seen: Seq<Seq<int>>,
    query: Term,
    key: Term,
    value: Term,
    start: usize,
    b: int,
)
    requires
        runs_on(device, attention.rope, open),
        attention.wf(),
        attention.rope.width == attention.head_dimension,
        start == past.length,
        start + seen.len() <= attention.rope.positions,
        dims_of(query).len() == 3,
        dims_of(query)[1] == seen.len(),
        dims_of(query)[2] == attention.q_proj.outputs,
        dims_of(key) == dims_of(query).update(2, attention.k_proj.outputs),
        dims_of(value) == dims_of(query).update(2, attention.v_proj.outputs),
        0 <= b < dims_of(query)[0],
        forall|s: int|
            0 <= s < seen.len() ==> #[trigger] features(query, b, s, open) == mapped(
                device,
                Parameter::Query(attention.layer),
                attention.q_proj.outputs as nat,
                seen[s],
            ),
        forall|s: int|
            0 <= s < seen.len() ==> #[trigger] features(key, b, s, open) == mapped(
                device,
                Parameter::Key(attention.layer),
                attention.k_proj.outputs as nat,
                seen[s],
            ),
        forall|s: int|
            0 <= s < seen.len() ==> #[trigger] features(value, b, s, open) == mapped(
                device,
                Parameter::Value(attention.layer),
                attention.v_proj.outputs as nat,
                seen[s],
            ),
    ensures
        ({
            let rope = attention.rope;
            let layout = attention.rotary_layout;
            let width = attention.head_dimension;
            let p = Projected {
                query: rotated(
                    layout,
                    rope,
                    heads_of(query, attention.num_query_heads, width),
                    start,
                ),
                key: rotated(layout, rope, heads_of(key, attention.num_kv_heads, width), start),
                value: heads_of(value, attention.num_kv_heads, width),
            };
            &&& shaped(attention, p, dims_of(query))
            &&& projects(device, attention, past, seen, p, b, open)
        }),
{
    let d = dims_of(query);
    let width = attention.head_dimension;
    let rope = attention.rope;
    let layout = attention.rotary_layout;
    let queries = attention.num_query_heads;
    let shared = attention.num_kv_heads;
    let split_query = heads_of(query, queries, width);
    let split_key = heads_of(key, shared, width);
    let p = Projected {
        query: rotated(layout, rope, split_query, start),
        key: rotated(layout, rope, split_key, start),
        value: heads_of(value, shared, width),
    };
    assert(shaped(attention, p, d)) by {
        reveal(crate::llama::attention::half_split_rotated);
        assert(dims_of(p.query) =~= seq![d[0], queries, d[1], width]);
        assert(dims_of(p.key) =~= attention.key_dims(d));
        assert(dims_of(p.value) =~= attention.key_dims(d));
    }
    assert forall|h: int, s: int| 0 <= h < queries && 0 <= s < seen.len() implies #[trigger]
    head_vector(p.query, b, h, s, open) == query_of(device, attention, past, seen, h, s) by {
        lemma_head(query, queries, width, b, h, s, open);
        lemma_turned(device, rope, open, layout, split_query, start, b, h, s);
        assert(features(query, b, s, open) == mapped(
            device,
            Parameter::Query(attention.layer),
            attention.q_proj.outputs as nat,
            seen[s],
        ));
    }
    assert forall|h: int, s: int| 0 <= h < shared && 0 <= s < seen.len() implies #[trigger]
    head_vector(p.key, b, h, s, open) == keys_of(device, attention, past, seen, h)[past.length
        + s] by {
        lemma_head(key, shared, width, b, h, s, open);
        lemma_turned(device, rope, open, layout, split_key, start, b, h, s);
        assert(features(key, b, s, open) == mapped(
            device,
            Parameter::Key(attention.layer),
            attention.k_proj.outputs as nat,
            seen[s],
        ));
    }
    assert forall|h: int, s: int| 0 <= h < shared && 0 <= s < seen.len() implies #[trigger]
    head_vector(p.value, b, h, s, open) == values_of(device, attention, past, seen, h)[past.length
        + s] by {
        lemma_head(value, shared, width, b, h, s, open);
        assert(features(value, b, s, open) == mapped(
            device,
            Parameter::Value(attention.layer),
            attention.v_proj.outputs as nat,
            seen[s],
        ));
    }
}

/// The queries, keys and values that separate projections make of an input.
proof fn lemma_projected(
    device: Device,
    open: spec_fn(Term, Seq<int>) -> int,
    attention: LlamaAttention,
    past: Past,
    input: Term,
    start: usize,
    b: int,
)
    requires
        runs_on(device, attention.rope, open),
        attention.wf(),
        attention.rope.width == attention.head_dimension,
        start == past.length,
        attention.takes(dims_of(input), start),
        0 <= b < dims_of(input)[0],
    ensures
        shaped(attention, attention.projected(input, start), dims_of(input)),
        projects(
            device,
            attention,
            past,
            vectors(input, b, open),
            attention.projected(input, start),
            b,
            open,
        ),
{
    let rope = attention.rope;
    let n = attention.layer;
    let seen = vectors(input, b, open);
    let query = project_term(Parameter::Query(n), input, attention.q_proj.outputs);
    let key = project_term(Parameter::Key(n), input, attention.k_proj.outputs);
    let value = project_term(Parameter::Value(n), input, attention.v_proj.outputs);
    assert(dims_of(key) =~= dims_of(query).update(2, attention.k_proj.outputs));
    assert(dims_of(value) =~= dims_of(query).update(2, attention.v_proj.outputs));
    assert forall|s: int| 0 <= s < seen.len() implies #[trigger] features(query, b, s, open)
        == mapped(device, Parameter::Query(n), attention.q_proj.outputs as nat, seen[s]) by {
        let p = Parameter::Query(n);
        lemma_mapped(device, rope, open, p, input, attention.q_proj.outputs, b, s);
    }
    assert forall|s: int| 0 <= s < seen.len() implies #[trigger] features(key, b, s, open)
        == mapped(device, Parameter::Key(n), attention.k_proj.outputs as nat, seen[s]) by {
        let p = Parameter::Key(n);
        lemma_mapped(device, rope, open, p, input, attention.k_proj.outputs, b, s);
    }
    assert forall|s: int| 0 <= s < seen.len() implies #[trigger] features(value, b, s, open)
        == mapped(device, Parameter::Value(n), attention.v_proj.outputs as nat, seen[s]) by {
        let p = Parameter::Value(n);
        lemma_mapped(device, rope, open, p, input, attention.v_proj.outputs, b, s);
    }
    lemma_projects(device, open, attention, past, seen, query, key, value, start, b);
}

/// New keys and values behind those that a cache holds are all that a layer attends to.
pub proof fn lemma_remembered(
    device: Device,
    open: spec_fn(Term, Seq<int>) -> int,
    attention: LlamaAttention,
    past: Past,
    seen: Seq<Seq<int>>,
    p: Projected,
    dims: Seq<usize>,
    cache: LlamaLayerCache,
    b: int,
)
    requires
        cache.wf(),
        cache.storage_capacity == cache.sequence_length,
        dims.len() == 3,
        dims[1] == seen.len(),
        cache.accepts(attention.key_dims(dims)),
        shaped(attention, p, dims),
        projects(device, attention, past, seen, p, b, open),
        remembers(past, cache, attention.layer, b, open),
    ensures
        ({
            let key = cache.appended(Op::CachedKey(attention.layer), p.key);
            let value = cache.appended(Op::CachedValue(attention.layer), p.value);
            let length = (cache.sequence_length + dims[1]) as usize;
            &&& dims_of(key) == attention.key_dims(dims).update(2, length)
            &&& dims_of(value) == dims_of(key)
            &&& holds_all(device, attention, past, seen, key, value, b, open)
        }),
{
    let start = cache.sequence_length;
    let key = cache.appended(Op::CachedKey(attention.layer), p.key);
    let value = cache.appended(Op::CachedValue(attention.layer), p.value);
    let length = start + dims[1];
    assert(dims_of(key) =~= attention.key_dims(dims).update(2, length as usize));
    assert(dims_of(value) =~= dims_of(key));
    assert forall|h: int| 0 <= h < attention.num_kv_heads implies #[trigger] head_vectors(
        key,
        b,
        h,
        open,
    ) == keys_of(device, attention, past, seen, h) by {
        let keys = keys_of(device, attention, past, seen, h);
        assert forall|m: int| 0 <= m < length implies head_vector(key, b, h, m, open)
            == keys[m] by {
            lemma_appended(cache, Op::CachedKey(attention.layer), p.key, b, h, m, open);
            if m < start {
                assert(keys[m] == (past.key)(h, m));
            } else {
                assert(head_vector(p.key, b, h, m - start, open) == keys[past.length + (m
                    - start)]);
            }
        }
        assert(head_vectors(key, b, h, open) =~= keys);
    }
    assert forall|h: int| 0 <= h < attention.num_kv_heads implies #[trigger] head_vectors(
        value,
        b,
        h,
        open,
    ) == values_of(device, attention, past, seen, h) by {
        let values = values_of(device, attention, past, seen, h);
        assert forall|m: int| 0 <= m < length implies head_vector(value, b, h, m, open)
            == values[m] by {
            lemma_appended(cache, Op::CachedValue(attention.layer), p.value, b, h, m, open);
            if m < start {
                assert(values[m] == (past.value)(h, m));
            } else {
                assert(head_vector(p.value, b, h, m - start, open) == values[past.length + (m
                    - start)]);
            }
        }
        assert(head_vectors(value, b, h, open) =~= values);
    }
}

/// A pass over an attention, vector by vector.
proof fn lemma_attention(
    device: Device,
    open: spec_fn(Term, Seq<int>) -> int,
    attention: LlamaAttention,
    input: Term,
    cache: LlamaLayerCache,
    past: Past,
    b: int,
    s: int,
)
    requires
        runs_on(device, attention.rope, open),
        fits(attention, input, cache),
        remembers(past, cache, attention.layer, b, open),
        0 <= b < dims_of(input)[0],
        0 <= s < dims_of(input)[1],
    ensures
        dims_of(attention.cached_result(input, cache)) == seq![
            dims_of(input)[0],
            dims_of(input)[1],
            attention.o_proj.outputs,
        ],
        features(attention.cached_result(input, cache), b, s, open) == attention_of(
            device,
            attention,
            past,
            vectors(input, b, open),
            s,
        ),
{
    let start = cache.sequence_length;
    let d = dims_of(input);
    let p = attention.projected(input, start);
    let key = cache.appended(Op::CachedKey(attention.layer), p.key);
    let value = cache.appended(Op::CachedValue(attention.layer), p.value);
    let seen = vectors(input, b, open);
    let heads = attention.num_query_heads;
    let groups = (heads / attention.num_kv_heads) as usize;
    let context = attended(
        p.query,
        repeated_heads(key, groups),
        repeated_heads(value, groups),
        start,
    );
    lemma_projected(device, open, attention, past, input, start, b);
    lemma_remembered(device, open, attention, past, seen, p, d, cache, b);
    assert(dims_of(key) =~= seq![
        d[0],
        attention.num_kv_heads,
        dims_of(key)[2],
        attention.head_dimension,
    ]);
    assert forall|h: int| 0 <= h < heads implies #[trigger] head_vector(context, b, h, s, open)
        == head_context(device, attention, past, seen, h, s) by {
        lemma_context(device, open, attention, past, seen, p.query, key, value, start, b, s, h);
    }
    lemma_context(device, open, attention, past, seen, p.query, key, value, start, b, s, 0);
    lemma_output(device, open, attention, past, seen, context, b, s);
}

/// A feed-forward block, vector by vector.
proof fn lemma_fed(
    device: Device,
    rope: RotaryEncoding,
    open: spec_fn(Term, Seq<int>) -> int,
    mlp: LlamaFeedForward,
    input: Term,
    b: int,
    s: int,
)
    requires
        runs_on(device, rope, open),
        mlp.wf(),
        dims_of(input).len() == 3,
        0 <= b < dims_of(input)[0],
        0 <= s < dims_of(input)[1],
    ensures
        dims_of(mlp.result(input)) == dims_of(input).update(2, mlp.down_proj.outputs),
        features(mlp.result(input), b, s, open) == feed_forward_of(
            device,
            mlp,
            features(input, b, s, open),
        ),
{
    let n = mlp.layer;
    let gate = project_term(Parameter::Gate(n), input, mlp.gate_proj.outputs);
    let up = project_term(Parameter::Up(n), input, mlp.up_proj.outputs);
    let through = gated(gate, up);
    lemma_mapped(device, rope, open, Parameter::Gate(n), input, mlp.gate_proj.outputs, b, s);
    lemma_mapped(device, rope, open, Parameter::Up(n), input, mlp.up_proj.outputs, b, s);
    lemma_mapped(device, rope, open, Parameter::Down(n), through, mlp.down_proj.outputs, b, s);
    let x = features(gate, b, s, open);
    let y = features(up, b, s, open);
    let active = same_term(Op::Silu(gate), gate);
    assert forall|k: int| 0 <= k < mlp.gate_proj.outputs implies entry(
        through,
        at_3(b, s, k),
        open,
    ) == (device.silu)(x[k]) * y[k] by {
        lemma_inside_3(dims_of(up), b, s, k);
        assert(entry(active, at_3(b, s, k), open) == open(
            value(Op::Silu(gate), dims_of(gate)),
            at_3(b, s, k),
        ));
    }
    assert(features(through, b, s, open) =~= Seq::new(
        x.len(),
        |k: int| (device.silu)(x[k]) * y[k],
    ));
    assert(dims_of(mlp.result(input)) =~= dims_of(input).update(2, mlp.down_proj.outputs));
}

/// A layer of a decoder, vector by vector.
proof fn lemma_layer(
    device: Device,
    open: spec_fn(Term, Seq<int>) -> int,
    layer: LlamaDecoderLayer,
    input: Term,
    cache: LlamaLayerCache,
    past: Past,
    b: int,
)
    requires
        runs_on(device, layer.self_attn.rope, open),
        layer.wf(),
        fits(layer.self_attn, input, cache),
        remembers(past, cache, layer.self_attn.layer, b, open),
        0 <= b < dims_of(input)[0],
    ensures
        dims_of(layer.cached_result(input, cache)) == dims_of(input),
        vectors(layer.cached_result(input, cache), b, open) == layer_of_vectors(
            device,
            layer,
            past,
            vectors(input, b, open),
        ),
{
    let rope = layer.self_attn.rope;
    let n = layer.self_attn.layer;
    let x = vectors(input, b, open);
    let normal = layer.normalized(input);
    let seen = Seq::new(x.len(), |s: int| normed(device, Parameter::InputNorm(n), x[s]));
    let attention = layer.self_attn.cached_result(normal, cache);
    let hidden = sum_term(input, attention);
    let narrow = norm_term(Parameter::PostNorm(n), hidden);
    let fed = layer.mlp.result(narrow);
    let made = layer.cached_result(input, cache);
    assert forall|s: int| 0 <= s < x.len() implies features(normal, b, s, open) == seen[s] by {
        lemma_normed(device, rope, open, Parameter::InputNorm(n), input, b, s);
    }
    assert(vectors(normal, b, open) =~= seen);
    let want = layer_of_vectors(device, layer, past, x);
    assert(dims_of(made) =~= dims_of(input));
    assert forall|s: int| 0 <= s < x.len() implies features(made, b, s, open) == want[s] by {
        lemma_attention(device, open, layer.self_attn, normal, cache, past, b, s);
        assert(dims_of(attention) =~= dims_of(input));
        lemma_summed(input, attention, b, s, open);
        lemma_normed(device, rope, open, Parameter::PostNorm(n), hidden, b, s);
        lemma_fed(device, rope, open, layer.mlp, narrow, b, s);
        assert(dims_of(fed) =~= dims_of(hidden));
        lemma_summed(hidden, fed, b, s, open);
    }
    assert(vectors(made, b, open) =~= want);
}

/// A decoder layer after earlier positions returns `h + mlp(post_norm(h))`, where `h` is
/// `x + attention(input_norm(x))`. Attention reads the keys and values of the earlier positions
/// and of the new ones, and these are what the layer's cache holds from then on.
pub proof fn law_cached_layer_is_a_decoder_layer(
    device: Device,
    open: spec_fn(Term, Seq<int>) -> int,
    layer: LlamaDecoderLayer,
    input: Term,
    cache: LlamaLayerCache,
    b: int,
)
    requires
        runs_on(device, layer.self_attn.rope, open),
        layer.wf(),
        fits(layer.self_attn, input, cache),
        0 <= b < dims_of(input)[0],
    ensures
        ({
            let n = layer.self_attn.layer;
            let past = past_of(cache, n, b, open);
            let x = vectors(input, b, open);
            let seen = Seq::new(x.len(), |s: int| normed(device, Parameter::InputNorm(n), x[s]));
            let p = layer.self_attn.projected(layer.normalized(input), cache.sequence_length);
            &&& vectors(layer.cached_result(input, cache), b, open) == layer_of_vectors(
                device,
                layer,
                past,
                x,
            )
            &&& holds_all(
                device,
                layer.self_attn,
                past,
                seen,
                cache.appended(Op::CachedKey(n), p.key),
                cache.appended(Op::CachedValue(n), p.value),
                b,
                open,
            )
        }),
{
    let n = layer.self_attn.layer;
    let past = past_of(cache, n, b, open);
    let x = vectors(input, b, open);
    let normal = layer.normalized(input);
    let seen = Seq::new(x.len(), |s: int| normed(device, Parameter::InputNorm(n), x[s]));
    lemma_layer(device, open, layer, input, cache, past, b);
    assert forall|s: int| 0 <= s < x.len() implies features(normal, b, s, open) == seen[s] by {
        lemma_normed(device, layer.self_attn.rope, open, Parameter::InputNorm(n), input, b, s);
    }
    assert(vectors(normal, b, open) =~= seen);
    let start = cache.sequence_length;
    let p = layer.self_attn.projected(normal, start);
    lemma_projected(device, open, layer.self_attn, past, normal, start, b);
    lemma_remembered(device, open, layer.self_attn, past, seen, p, dims_of(input), cache, b);
}

/// No earlier positions.
pub open spec fn nothing() -> Past {
    Past { length: 0, key: |h: int, m: int| Seq::empty(), value: |h: int, m: int| Seq::empty() }
}

/// A cache that holds nothing.
spec fn fresh(layer: usize, positions: usize) -> LlamaLayerCache {
    LlamaLayerCache {
        layer,
        stored: None,
        sequence_length: 0,
        storage_capacity: 0,
        max_sequence_length: positions,
    }
}

/// A decoder layer returns `h + mlp(post_norm(h))`, where `h` is `x + attention(input_norm(x))`.
pub proof fn law_layer_is_a_decoder_layer(
    device: Device,
    open: spec_fn(Term, Seq<int>) -> int,
    layer: LlamaDecoderLayer,
    input: Term,
    b: int,
)
    requires
        runs_on(device, layer.self_attn.rope, open),
        layer.wf(),
        layer.self_attn.rope.width == layer.self_attn.head_dimension,
        layer.self_attn.takes(dims_of(input), 0),
        0 <= b < dims_of(input)[0],
    ensures
        dims_of(layer.result(input)) == dims_of(input),
        vectors(layer.result(input), b, open) == layer_of_vectors(
            device,
            layer,
            nothing(),
            vectors(input, b, open),
        ),
{
    let cache = fresh(layer.self_attn.layer, layer.self_attn.rope.positions);
    lemma_layer(device, open, layer, input, cache, nothing(), b);
}

/// What the first `n` layers make of vectors.
pub open spec fn stacked(
    device: Device,
    layers: Seq<LlamaDecoderLayer>,
    pasts: spec_fn(int) -> Past,
    x: Seq<Seq<int>>,
    n: int,
) -> Seq<Seq<int>>
    decreases n,
{
    if n <= 0 {
        x
    } else {
        layer_of_vectors(
            device,
            layers[n - 1],
            pasts(n - 1),
            stacked(device, layers, pasts, x, n - 1),
        )
    }
}

/// The vectors of tokens.
pub open spec fn looked_up(
    device: Device,
    tokens: Term,
    width: usize,
    b: int,
    open: spec_fn(Term, Seq<int>) -> int,
) -> Seq<Seq<int>> {
    Seq::new(
        dims_of(tokens)[1] as nat,
        |s: int|
            Seq::new(
                width as nat,
                |k: int| (device.embedding)(entry(tokens, seq![b, s], open), k),
            ),
    )
}

/// The logits of a vector: its product with the head, after the final norm.
pub open spec fn logits_of(device: Device, model: LlamaForCausalLm, x: Seq<int>) -> Seq<int> {
    mapped(
        device,
        Parameter::Head,
        model.lm_head.outputs as nat,
        normed(device, Parameter::FinalNorm, x),
    )
}

pub proof fn lemma_looked_up(
    device: Device,
    rope: RotaryEncoding,
    open: spec_fn(Term, Seq<int>) -> int,
    tokens: Term,
    width: usize,
    b: int,
)
    requires
        runs_on(device, rope, open),
    ensures
        vectors(embedded(tokens, width), b, open) == looked_up(device, tokens, width, b, open),
{
    let made = embedded(tokens, width);
    let want = looked_up(device, tokens, width, b, open);
    assert forall|s: int| 0 <= s < dims_of(tokens)[1] implies features(made, b, s, open)
        == want[s] by {
        assert forall|k: int| 0 <= k < width implies entry(made, at_3(b, s, k), open)
            == want[s][k] by {
            assert(entry(made, at_3(b, s, k), open) == open(
                value(Op::Embed(tokens), dims_of(made)),
                at_3(b, s, k),
            ));
        }
        assert(features(made, b, s, open) =~= want[s]);
    }
    assert(vectors(made, b, open) =~= want);
}

proof fn lemma_logits(
    device: Device,
    rope: RotaryEncoding,
    open: spec_fn(Term, Seq<int>) -> int,
    model: LlamaForCausalLm,
    hidden: Term,
    b: int,
    s: int,
)
    requires
        runs_on(device, rope, open),
    ensures
        features(model.logits(hidden), b, s, open) == logits_of(
            device,
            model,
            features(hidden, b, s, open),
        ),
{
    let narrow = norm_term(Parameter::FinalNorm, hidden);
    lemma_normed(device, rope, open, Parameter::FinalNorm, hidden, b, s);
    lemma_mapped(device, rope, open, Parameter::Head, narrow, model.lm_head.outputs, b, s);
}

/// All layers of a model have one rotary encoding, as wide as their heads.
pub open spec fn rotates_by(model: LlamaForCausalLm, rope: RotaryEncoding) -> bool {
    forall|i: int| #![trigger model.layers@[i]]
        0 <= i < model.layers@.len() ==> model.layers@[i].self_attn.rope == rope
            && model.layers@[i].self_attn.head_dimension == rope.width
}

proof fn lemma_through(
    device: Device,
    rope: RotaryEncoding,
    open: spec_fn(Term, Seq<int>) -> int,
    model: LlamaForCausalLm,
    t: Term,
    b: int,
    n: int,
)
    requires
        runs_on(device, rope, open),
        model.wf(),
        rotates_by(model, rope),
        dims_of(t).len() == 3,
        dims_of(t)[1] <= model.max_sequence_length,
        dims_of(t)[2] == model.embed_tokens.width,
        0 <= b < dims_of(t)[0],
        0 <= n <= model.layers@.len(),
    ensures
        dims_of(through(model.layers@, t, n)) == dims_of(t),
        vectors(through(model.layers@, t, n), b, open) == stacked(
            device,
            model.layers@,
            |i: int| nothing(),
            vectors(t, b, open),
            n,
        ),
    decreases n,
{
    if n > 0 {
        lemma_through(device, rope, open, model, t, b, n - 1);
        let layer = model.layers@[n - 1];
        assert(model.fitting_layer(layer, n - 1));
        law_layer_is_a_decoder_layer(device, open, layer, through(model.layers@, t, n - 1), b);
    }
}

/// The logits of a model at every position are those of a transformer decoder: tokens are looked
/// up, go through every layer in order, and the final norm and the head read what the last layer
/// returns.
pub proof fn law_model_is_a_decoder(
    device: Device,
    rope: RotaryEncoding,
    open: spec_fn(Term, Seq<int>) -> int,
    model: LlamaForCausalLm,
    tokens: Term,
    b: int,
    s: int,
)
    requires
        runs_on(device, rope, open),
        model.wf(),
        rotates_by(model, rope),
        dims_of(tokens).len() == 2,
        dims_of(tokens)[1] <= model.max_sequence_length,
        0 <= b < dims_of(tokens)[0],
        0 <= s < dims_of(tokens)[1],
    ensures
        features(model.result(tokens), b, s, open) == logits_of(
            device,
            model,
            stacked(
                device,
                model.layers@,
                |i: int| nothing(),
                looked_up(device, tokens, model.embed_tokens.width, b, open),
                model.layers@.len() as int,
            )[s],
        ),
{
    let t = embedded(tokens, model.embed_tokens.width);
    let n = model.layers@.len() as int;
    let hidden = through(model.layers@, t, n);
    lemma_looked_up(device, rope, open, tokens, model.embed_tokens.width, b);
    lemma_through(device, rope, open, model, t, b, n);
    lemma_logits(device, rope, open, model, hidden, b, s);
    assert(vectors(hidden, b, open)[s] == features(hidden, b, s, open));
}

proof fn lemma_through_cached(
    device: Device,
    rope: RotaryEncoding,
    open: spec_fn(Term, Seq<int>) -> int,
    model: LlamaForCausalLm,
    cache: LlamaKvCache,
    tokens: Term,
    b: int,
    n: int,
)
    requires
        runs_on(device, rope, open),
        model.wf(),
        rotates_by(model, rope),
        model.takes(cache, dims_of(tokens)),
        0 <= b < dims_of(tokens)[0],
        0 <= n <= model.layers@.len(),
    ensures
        ({
            let t = embedded(tokens, model.embed_tokens.width);
            let hidden = through_cached(model.layers@, cache.layers@, t, n);
            &&& dims_of(hidden) == dims_of(t)
            &&& vectors(hidden, b, open) == stacked(
                device,
                model.layers@,
                |i: int| past_of(cache.layers@[i], i as usize, b, open),
                vectors(t, b, open),
                n,
            )
        }),
    decreases n,
{
    if n > 0 {
        lemma_through_cached(device, rope, open, model, cache, tokens, b, n - 1);
        let t = embedded(tokens, model.embed_tokens.width);
        let hidden = through_cached(model.layers@, cache.layers@, t, n - 1);
        let layer = model.layers@[n - 1];
        assert(model.fitting_layer(layer, n - 1));
        assert(model.layer_takes(cache.layers@[n - 1], n - 1, dims_of(tokens)));
        assert(cache.layers@[n - 1].wf());
        let past = past_of(cache.layers@[n - 1], (n - 1) as usize, b, open);
        lemma_layer(device, open, layer, hidden, cache.layers@[n - 1], past, b);
    }
}

/// The logits that a pass after earlier positions returns are those of a transformer decoder whose
/// layers also attend to the keys and values that their caches hold, at every new position; and
/// where only the last position is asked for, they are those of the last position.
pub proof fn law_cached_model_is_a_decoder(
    device: Device,
    rope: RotaryEncoding,
    open: spec_fn(Term, Seq<int>) -> int,
    model: LlamaForCausalLm,
    cache: LlamaKvCache,
    tokens: Term,
    b: int,
    s: int,
)
    requires
        runs_on(device, rope, open),
        model.wf(),
        rotates_by(model, rope),
        model.takes(cache, dims_of(tokens)),
        0 <= b < dims_of(tokens)[0],
        0 <= s < dims_of(tokens)[1],
    ensures
        ({
            let hidden = model.cached_hidden(tokens, cache.layers@);
            let x = stacked(
                device,
                model.layers@,
                |i: int| past_of(cache.layers@[i], i as usize, b, open),
                looked_up(device, tokens, model.embed_tokens.width, b, open),
                model.layers@.len() as int,
            );
            &&& features(model.logits(hidden), b, s, open) == logits_of(device, model, x[s])
            &&& features(model.logits(last_position(hidden)), b, 0, open) == logits_of(
                device,
                model,
                x[dims_of(tokens)[1] - 1],
            )
        }),
{
    let t = embedded(tokens, model.embed_tokens.width);
    let n = model.layers@.len() as int;
    let hidden = model.cached_hidden(tokens, cache.layers@);
    lemma_looked_up(device, rope, open, tokens, model.embed_tokens.width, b);
    lemma_through_cached(device, rope, open, model, cache, tokens, b, n);
    lemma_logits(device, rope, open, model, hidden, b, s);
    lemma_logits(device, rope, open, model, last_position(hidden), b, 0);
    assert(vectors(hidden, b, open)[s] == features(hidden, b, s, open));
    let end = dims_of(tokens)[1] - 1;
    assert(vectors(hidden, b, open)[end] == features(hidden, b, end, open));
    assert forall|k: int| 0 <= k < dims_of(hidden)[2] implies entry(
        last_position(hidden),
        at_3(b, 0, k),
        open,
    ) == entry(hidden, at_3(b, end, k), open) by {
        assert(at_3(b, 0, k).update(1, 0 + end) =~= at_3(b, end, k));
    }
    assert(features(last_position(hidden), b, 0, open) =~= features(hidden, b, end, open));
}

} // verus!
