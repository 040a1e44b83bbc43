//! What the single elements of values are.
//!
//! Programs move elements around, and combine them. Here an element is a number of exact
//! arithmetic; what comes out of anything that is not a matter of moving, negating, multiplying or
//! adding elements is left open.

use crate::llama::attention::{
    half_split_factors, half_split_pairs, half_split_rotated, repeated_heads,
};
use crate::llama::cache::{dims_of, slice_term, value, LlamaLayerCache, StoredShape};
use crate::llama::heads::{heads_of, joined, merged};
use crate::llama::program::{Op, Term};
use crate::llama::steps::{cat_term, reshape_term, same_term, swap_term};
use vstd::arithmetic::div_mod::{lemma_fundamental_div_mod, lemma_fundamental_div_mod_converse};
use vstd::prelude::*;

verus! {

/// An index lies within a shape.
pub open spec fn inside(dims: Seq<usize>, at: Seq<int>) -> bool {
    at.len() == dims.len() && forall|k: int|
        0 <= k < dims.len() ==> 0 <= #[trigger] at[k] < dims[k]
}

/// The place of an index in row-major order.
pub open spec fn place(dims: Seq<usize>, at: Seq<int>) -> int
    decreases dims.len(),
{
    if dims.len() == 0 {
        0
    } else {
        place(dims.drop_last(), at.drop_last()) * dims.last() + at.last()
    }
}

/// The index that stands at a place in row-major order.
pub open spec fn index_at(dims: Seq<usize>, p: int) -> Seq<int>
    decreases dims.len(),
{
    if dims.len() == 0 {
        Seq::empty()
    } else {
        index_at(dims.drop_last(), p / dims.last() as int).push(p % dims.last() as int)
    }
}

/// An index of a larger shape, for a value that is spread over it.
pub open spec fn narrowed(dims: Seq<usize>, at: Seq<int>) -> Seq<int> {
    Seq::new(
        at.len(),
        |k: int|
            if dims[k] == 1 {
                0
            } else {
                at[k]
            },
    )
}

/// An element of a value, given the elements of the values that this leaves open.
pub open spec fn entry(t: Term, at: Seq<int>, open: spec_fn(Term, Seq<int>) -> int) -> int
    decreases t,
{
    match t {
        Term::Unknown => open(t, at),
        Term::Value { op, dims } => match *op {
            Op::Slice(x, axis, span) => entry(
                x,
                at.update(axis as int, at[axis as int] + span.start),
                open,
            ),
            Op::SliceAssign(x, axis, span, y) => if span.start <= at[axis as int] < span.end {
                entry(y, at.update(axis as int, at[axis as int] - span.start), open)
            } else {
                entry(x, at, open)
            },
            Op::Reshape(x) => entry(x, index_at(dims_of(x), place(dims, at)), open),
            Op::SwapDims(x, a, b) => entry(
                x,
                at.update(a as int, at[b as int]).update(b as int, at[a as int]),
                open,
            ),
            Op::RepeatDim(x, axis, _) => entry(x, at.update(axis as int, 0), open),
            Op::Cat(x, y, axis) => if at[axis as int] < dims_of(x)[axis as int] {
                entry(x, at, open)
            } else {
                entry(
                    y,
                    at.update(axis as int, at[axis as int] - dims_of(x)[axis as int]),
                    open,
                )
            },
            Op::Negate(x) => -entry(x, at, open),
            Op::Multiply(x, y) => entry(x, at, open) * entry(y, narrowed(dims_of(y), at), open),
            Op::Add(x, y) => entry(x, at, open) + entry(y, narrowed(dims_of(y), at), open),
            _ => open(t, at),
        },
    }
}

/// Every index within a shape stands at its own place.
proof fn lemma_index_at_place(dims: Seq<usize>, at: Seq<int>)
    requires
        inside(dims, at),
    ensures
        index_at(dims, place(dims, at)) == at,
    decreases dims.len(),
{
    if dims.len() > 0 {
        let outer = place(dims.drop_last(), at.drop_last());
        let length = dims.last() as int;
        assert(at[dims.len() - 1] == at.last());
        assert(inside(dims.drop_last(), at.drop_last())) by {
            assert forall|k: int| 0 <= k < dims.len() - 1 implies 0 <= #[trigger] at.drop_last()[k]
                < dims.drop_last()[k] by {
                assert(at[k] == at.drop_last()[k]);
            }
        }
        lemma_index_at_place(dims.drop_last(), at.drop_last());
        lemma_fundamental_div_mod_converse(outer * length + at.last(), length, outer, at.last());
        assert(at.drop_last().push(at.last()) =~= at);
    } else {
        assert(at =~= Seq::empty());
    }
}

/// A reshaped value has, at each place, the element that stood there.
proof fn lemma_reshaped(
    t: Term,
    dims: Seq<usize>,
    at: Seq<int>,
    from: Seq<int>,
    open: spec_fn(Term, Seq<int>) -> int,
)
    requires
        inside(dims_of(t), from),
        place(dims_of(t), from) == place(dims, at),
    ensures
        entry(reshape_term(t, dims), at, open) == entry(t, from, open),
{
    lemma_index_at_place(dims_of(t), from);
}

proof fn lemma_place_2(b: usize, i: int, j: int, a: usize)
    ensures
        place(seq![a, b], seq![i, j]) == i * b + j,
{
    reveal_with_fuel(place, 3);
    assert(seq![a, b].drop_last() =~= seq![a]);
    assert(seq![i, j].drop_last() =~= seq![i]);
    assert(seq![a].drop_last() =~= Seq::<usize>::empty());
}

proof fn lemma_place_3(dims: Seq<usize>, at: Seq<int>)
    requires
        dims.len() == 3,
        at.len() == 3,
    ensures
        place(dims, at) == (at[0] * dims[1] + at[1]) * dims[2] + at[2],
{
    lemma_place_2(dims[1], at[0], at[1], dims[0]);
    assert(dims.drop_last() =~= seq![dims[0], dims[1]]);
    assert(at.drop_last() =~= seq![at[0], at[1]]);
}

proof fn lemma_place_4(dims: Seq<usize>, at: Seq<int>)
    requires
        dims.len() == 4,
        at.len() == 4,
    ensures
        place(dims, at) == ((at[0] * dims[1] + at[1]) * dims[2] + at[2]) * dims[3] + at[3],
{
    lemma_place_3(dims.drop_last(), at.drop_last());
}

proof fn lemma_place_5(dims: Seq<usize>, at: Seq<int>)
    requires
        dims.len() == 5,
        at.len() == 5,
    ensures
        place(dims, at) == (((at[0] * dims[1] + at[1]) * dims[2] + at[2]) * dims[3] + at[3])
            * dims[4] + at[4],
{
    lemma_place_4(dims.drop_last(), at.drop_last());
}

/// Repeating heads gives each group of query heads the KV head that it shares: query head `h` sees
/// KV head `h / repeats`.
pub proof fn law_repeated_heads_are_shared(
    t: Term,
    repeats: usize,
    at: Seq<int>,
    open: spec_fn(Term, Seq<int>) -> int,
)
    requires
        dims_of(t).len() == 4,
        repeats > 0,
        dims_of(t)[1] * repeats <= usize::MAX,
        inside(
            seq![
                dims_of(t)[0],
                (dims_of(t)[1] * repeats) as usize,
                dims_of(t)[2],
                dims_of(t)[3],
            ],
            at,
        ),
    ensures
        entry(repeated_heads(t, repeats), at, open) == entry(
            t,
            at.update(1, at[1] / repeats as int),
            open,
        ),
{
    reveal(repeated_heads);
    let d = dims_of(t);
    let n = repeats as int;
    let folded = seq![d[0], (d[1] * repeats) as usize, d[2], d[3]];
    assert(at[0] < folded[0] && at[1] < folded[1] && at[2] < folded[2] && at[3] < folded[3]);
    let h = at[1] / n;
    let r = at[1] % n;
    lemma_fundamental_div_mod(at[1], n);
    assert(0 <= h < d[1] && 0 <= r < n) by (nonlinear_arith)
        requires
            0 <= at[1] < d[1] * n,
            n > 0,
            h == at[1] / n,
            r == at[1] % n,
    ;
    if repeats == 1 {
        assert(at.update(1, h) =~= at);
    } else {
        let spread = reshape_term(t, seq![d[0], d[1], 1, d[2], d[3]]);
        let copies = value(
            Op::RepeatDim(spread, 2, repeats),
            seq![d[0], d[1], repeats, d[2], d[3]],
        );
        let wide = seq![at[0], h, r, at[2], at[3]];
        let single = seq![at[0], h, 0, at[2], at[3]];
        let shared = at.update(1, h);
        lemma_place_4(folded, at);
        lemma_place_5(dims_of(copies), wide);
        assert((at[0] * (d[1] * n) + at[1]) == (at[0] * d[1] + h) * n + r) by (nonlinear_arith)
            requires
                at[1] == n * h + r,
        ;
        lemma_reshaped(copies, folded, at, wide, open);
        assert(wide.update(2, 0) =~= single);
        lemma_place_4(d, shared);
        lemma_place_5(dims_of(spread), single);
        assert((at[0] * d[1] + h) * 1 + 0 == at[0] * d[1] + h) by (nonlinear_arith);
        lemma_reshaped(t, dims_of(spread), single, shared, open);
    }
}

/// Splitting features into heads moves feature `h * width + d` to element `d` of head `h`.
pub proof fn law_split_heads_take_features(
    t: Term,
    heads: usize,
    width: usize,
    at: Seq<int>,
    open: spec_fn(Term, Seq<int>) -> int,
)
    requires
        dims_of(t).len() == 3,
        dims_of(t)[2] == heads * width,
        inside(seq![dims_of(t)[0], heads, dims_of(t)[1], width], at),
    ensures
        entry(heads_of(t, heads, width), at, open) == entry(
            t,
            seq![at[0], at[2], at[1] * width + at[3]],
            open,
        ),
{
    let d = dims_of(t);
    let bounds = seq![d[0], heads, d[1], width];
    assert(at[0] < bounds[0] && at[1] < bounds[1] && at[2] < bounds[2] && at[3] < bounds[3]);
    let split = seq![d[0], d[1], heads, width];
    let swapped = seq![at[0], at[2], at[1], at[3]];
    let from = seq![at[0], at[2], at[1] * width + at[3]];
    assert(at.update(1, at[2]).update(2, at[1]) =~= swapped);
    lemma_place_4(split, swapped);
    lemma_place_3(d, from);
    let row = at[0] * d[1] + at[2];
    assert((row * heads + at[1]) * width + at[3] == row * d[2] + (at[1] * width + at[3]))
        by (nonlinear_arith)
        requires
            d[2] == heads * width,
    ;
    assert(0 <= at[1] * width + at[3] < heads * width) by (nonlinear_arith)
        requires
            0 <= at[1] < heads,
            0 <= at[3] < width,
    ;
    lemma_reshaped(t, split, swapped, from, open);
}

/// Joining heads moves element `d` of head `h` back to feature `h * width + d`, whichever way they
/// are joined.
pub proof fn law_joined_heads_give_features_back(
    context: Term,
    at: Seq<int>,
    open: spec_fn(Term, Seq<int>) -> int,
)
    requires
        dims_of(context).len() == 4,
        dims_of(context)[1] * dims_of(context)[3] <= usize::MAX,
        inside(dims_of(context), at),
    ensures
        ({
            let feature = seq![at[0], at[2], at[1] * dims_of(context)[3] + at[3]];
            &&& entry(joined(context), feature, open) == entry(context, at, open)
            &&& entry(merged(context), feature, open) == entry(context, at, open)
        }),
{
    let d = dims_of(context);
    let features = (d[1] * d[3]) as usize;
    let flat = seq![d[0], d[2], features];
    let feature = seq![at[0], at[2], at[1] * d[3] + at[3]];
    assert(at[0] < d[0] && at[1] < d[1] && at[2] < d[2] && at[3] < d[3]);
    let swapped = swap_term(context, 1, 2);
    let turned = seq![at[0], at[2], at[1], at[3]];
    assert(dims_of(swapped) =~= seq![d[0], d[2], d[1], d[3]]);
    lemma_place_4(dims_of(swapped), turned);
    lemma_place_3(flat, feature);
    let row = at[0] * d[2] + at[2];
    assert((row * d[1] + at[1]) * d[3] + at[3] == row * features + (at[1] * d[3] + at[3]))
        by (nonlinear_arith)
        requires
            features == d[1] * d[3],
    ;
    lemma_reshaped(swapped, flat, feature, turned, open);
    assert(turned.update(1, turned[2]).update(2, turned[1]) =~= at);
    if d[2] == 1 {
        lemma_place_4(d, at);
        assert(((at[0] * d[1] + at[1]) * 1 + 0) * d[3] + at[3] == (at[0] * 1 + 0) * features + (
        at[1] * d[3] + at[3])) by (nonlinear_arith)
            requires
                features == d[1] * d[3],
        ;
        lemma_reshaped(context, flat, feature, at, open);
    }
}

/// The table of cosines and sines.
pub open spec fn rotary_table(positions: usize, width: usize) -> Term {
    value(Op::RotaryTable, seq![positions, width, 2])
}

/// An entry of the table: `part` 0 is the cosine of frequency `i` at a position, `part` 1 the sine.
pub open spec fn rotary_entry(
    positions: usize,
    width: usize,
    position: int,
    i: int,
    part: int,
    open: spec_fn(Term, Seq<int>) -> int,
) -> int {
    open(rotary_table(positions, width), seq![position, 2 * i, part])
}

proof fn lemma_pair_entries(
    positions: usize,
    width: usize,
    start: usize,
    sequence: usize,
    at: Seq<int>,
    open: spec_fn(Term, Seq<int>) -> int,
)
    requires
        width % 2 == 0,
        start + sequence <= positions,
        inside(seq![sequence, (width / 2) as usize, 2], at),
    ensures
        dims_of(half_split_pairs(positions, width, start, sequence)) == seq![
            sequence,
            (width / 2) as usize,
            2usize,
        ],
        entry(half_split_pairs(positions, width, start, sequence), at, open) == rotary_entry(
            positions,
            width,
            start + at[0],
            at[1],
            at[2],
            open,
        ),
{
    reveal(half_split_pairs);
    let half = (width / 2) as usize;
    let end = (start + sequence) as usize;
    let shape = seq![sequence, half, 2usize];
    assert(at[0] < shape[0] && at[1] < shape[1] && at[2] < shape[2]);
    let table = rotary_table(positions, width);
    let rows = slice_term(table, 0, start, end);
    let quads = reshape_term(rows, seq![sequence, half, 2, 2]);
    let singles = slice_term(quads, 2, 0, 1);
    assert(dims_of(rows) =~= seq![sequence, width, 2usize]);
    assert(dims_of(singles) =~= seq![sequence, half, 1usize, 2usize]);
    let wide = seq![at[0], at[1], 0, at[2]];
    lemma_place_3(shape, at);
    lemma_place_4(dims_of(singles), wide);
    assert((at[0] * half + at[1]) * 1 + 0 == at[0] * half + at[1]) by (nonlinear_arith);
    lemma_reshaped(singles, shape, at, wide, open);
    assert(wide.update(2, 0) =~= wide);
    assert(entry(singles, wide, open) == entry(quads, wide, open));
    let row = seq![at[0], 2 * at[1], at[2]];
    lemma_place_3(dims_of(rows), row);
    lemma_place_4(dims_of(quads), wide);
    assert(at[0] * width + 2 * at[1] == (at[0] * half + at[1]) * 2 + 0) by (nonlinear_arith)
        requires
            width == 2 * half,
    ;
    lemma_reshaped(rows, dims_of(quads), wide, row, open);
    assert(row.update(0, at[0] + start) =~= seq![start + at[0], 2 * at[1], at[2]]);
    assert(entry(rows, row, open) == entry(table, row.update(0, at[0] + start), open));
}

proof fn lemma_factor_entries(
    pairs: Term,
    width: usize,
    part: usize,
    at: Seq<int>,
    open: spec_fn(Term, Seq<int>) -> int,
)
    requires
        dims_of(pairs).len() == 3,
        dims_of(pairs)[1] * 2 == width,
        dims_of(pairs)[2] == 2,
        part < 2,
        inside(seq![1usize, 1usize, dims_of(pairs)[0], width], at),
    ensures
        dims_of(half_split_factors(pairs, width, part)) == seq![
            1usize,
            1usize,
            dims_of(pairs)[0],
            width,
        ],
        entry(half_split_factors(pairs, width, part), at, open) == entry(
            pairs,
            seq![at[2], at[3] % dims_of(pairs)[1] as int, part as int],
            open,
        ),
{
    reveal(half_split_factors);
    let sequence = dims_of(pairs)[0];
    let half = dims_of(pairs)[1];
    let shape = seq![1usize, 1usize, sequence, width];
    assert(at[0] < shape[0] && at[1] < shape[1] && at[2] < shape[2] && at[3] < shape[3]);
    let column = slice_term(pairs, 2, part, (part + 1) as usize);
    let flat = reshape_term(column, seq![sequence, half]);
    let both = cat_term(flat, flat, 1);
    assert(dims_of(column) =~= seq![sequence, half, 1usize]);
    assert(dims_of(both) =~= seq![sequence, width]);
    let pair = seq![at[2], at[3]];
    lemma_place_4(shape, at);
    lemma_place_2(width, at[2], at[3], sequence);
    assert(((0 * 1 + 0) * sequence + at[2]) * width == at[2] * width) by (nonlinear_arith);
    lemma_reshaped(both, shape, at, pair, open);
    let k = at[3] % half as int;
    assert(k == if at[3] < half {
        at[3]
    } else {
        at[3] - half
    }) by (nonlinear_arith)
        requires
            0 <= at[3] < 2 * half,
            k == at[3] % half as int,
    ;
    let single = seq![at[2], k];
    if at[3] < half {
        assert(pair =~= single);
    } else {
        assert(pair.update(1, at[3] - half) =~= single);
    }
    let deep = seq![at[2], k, 0];
    lemma_place_2(half, at[2], k, sequence);
    lemma_place_3(dims_of(column), deep);
    assert((at[2] * half + k) * 1 + 0 == at[2] * half + k) by (nonlinear_arith);
    lemma_reshaped(column, dims_of(flat), single, deep, open);
    assert(deep.update(2, 0 + part) =~= seq![at[2], k, part as int]);
}

/// Rotating the halves of a head against one another turns each element together with its partner
/// in the other half, by the frequency that both share: the first half becomes
/// `x cos - partner sin`, the second `x cos + partner sin`.
pub proof fn law_half_split_rotation(
    t: Term,
    positions: usize,
    start: usize,
    at: Seq<int>,
    open: spec_fn(Term, Seq<int>) -> int,
)
    requires
        dims_of(t).len() == 4,
        dims_of(t)[3] % 2 == 0,
        start + dims_of(t)[2] <= positions,
        inside(dims_of(t), at),
    ensures
        ({
            let width = dims_of(t)[3];
            let half = width as int / 2;
            let frequency = at[3] % half;
            let cosine = rotary_entry(positions, width, start + at[2], frequency, 0, open);
            let sine = rotary_entry(positions, width, start + at[2], frequency, 1, open);
            let x = entry(t, at, open);
            entry(half_split_rotated(t, positions, start), at, open) == if at[3] < half {
                x * cosine - entry(t, at.update(3, at[3] + half), open) * sine
            } else {
                x * cosine + entry(t, at.update(3, at[3] - half), open) * sine
            }
        }),
{
    reveal(half_split_rotated);
    let d = dims_of(t);
    let half = (d[3] / 2) as usize;
    assert(at[0] < d[0] && at[1] < d[1] && at[2] < d[2] && at[3] < d[3]);
    let pairs = half_split_pairs(positions, d[3], start, d[2]);
    let cosine = half_split_factors(pairs, d[3], 0);
    let sine = half_split_factors(pairs, d[3], 1);
    let k = at[3] % half as int;
    assert(0 <= k < half) by (nonlinear_arith)
        requires
            half > 0,
            k == at[3] % half as int,
    ;
    lemma_pair_entries(positions, d[3], start, d[2], seq![at[2], k, 0], open);
    lemma_pair_entries(positions, d[3], start, d[2], seq![at[2], k, 1], open);
    let narrow = seq![0, 0, at[2], at[3]];
    lemma_factor_entries(pairs, d[3], 0, narrow, open);
    lemma_factor_entries(pairs, d[3], 1, narrow, open);
    assert(narrowed(dims_of(cosine), at) =~= narrow);
    assert(narrowed(dims_of(sine), at) =~= narrow);
    let first = slice_term(t, 3, 0, half);
    let second = slice_term(t, 3, half, d[3]);
    let negated = same_term(Op::Negate(second), second);
    let rotated = cat_term(negated, first, 3);
    let left = same_term(Op::Multiply(t, cosine), t);
    let right = same_term(Op::Multiply(rotated, sine), rotated);
    assert(dims_of(rotated) =~= d);
    assert(narrowed(d, at) =~= at);
    if at[3] < half {
        assert(entry(rotated, at, open) == entry(negated, at, open));
        assert(entry(negated, at, open) == -entry(second, at, open));
        assert(entry(rotated, at, open) * entry(sine, narrow, open) == -(entry(
            t,
            at.update(3, at[3] + half),
            open,
        ) * entry(sine, narrow, open))) by (nonlinear_arith)
            requires
                entry(rotated, at, open) == -entry(t, at.update(3, at[3] + half), open),
        ;
    } else {
        let inner = at.update(3, at[3] - half);
        assert(inner.update(3, inner[3] + 0) =~= inner);
        assert(entry(rotated, at, open) == entry(first, inner, open));
    }
    assert(entry(right, at, open) == entry(rotated, at, open) * entry(sine, narrow, open));
    assert(entry(left, at, open) == entry(t, at, open) * entry(cosine, narrow, open));
}

/// An operation reads what a layer's cache holds.
pub open spec fn reads_cache(op: Op<Term>) -> bool {
    op is CachedKey || op is CachedValue
}

/// Joining a value to a cache that is filled to its end keeps every element that was held, and
/// puts the value behind them.
pub proof fn law_joining_keeps_history(
    cache: LlamaLayerCache,
    op: Op<Term>,
    t: Term,
    at: Seq<int>,
    open: spec_fn(Term, Seq<int>) -> int,
)
    requires
        cache.wf(),
        cache.storage_capacity == cache.sequence_length,
        cache.accepts(dims_of(t)),
        reads_cache(op),
        at.len() == 4,
        0 <= at[2] < cache.sequence_length + dims_of(t)[2],
    ensures
        entry(cache.appended(op, t), at, open) == if at[2] < cache.sequence_length {
            entry(cache.held(op), at, open)
        } else {
            entry(t, at.update(2, at[2] - cache.sequence_length), open)
        },
{
    if cache.stored is None {
        assert(at.update(2, at[2] - 0) =~= at);
    }
}

/// Writing a value into growing storage keeps every element that was held, and puts the value
/// behind them, whether or not the storage had to grow: up to the new length it has the elements
/// that joining gives.
pub proof fn law_growing_storage_keeps_history(
    cache: LlamaLayerCache,
    op: Op<Term>,
    shape: StoredShape,
    t: Term,
    at: Seq<int>,
    open: spec_fn(Term, Seq<int>) -> int,
)
    requires
        cache.wf(),
        dims_of(t) == shape.dims(dims_of(t)[2]),
        cache.has_room(shape, dims_of(t)[2]),
        reads_cache(op),
        at.len() == 4,
        0 <= at[2] < cache.sequence_length + dims_of(t)[2],
    ensures
        entry(cache.written(op, shape, t), at, open) == if at[2] < cache.sequence_length {
            entry(cache.held(op), at, open)
        } else {
            entry(t, at.update(2, at[2] - cache.sequence_length), open)
        },
{
    let end = cache.sequence_length + dims_of(t)[2];
    let storage = cache.storage(op, shape, end);
    if at[2] < cache.sequence_length {
        assert(entry(cache.written(op, shape, t), at, open) == entry(storage, at, open));
        if cache.storage_capacity < end {
            let part = slice_term(cache.held(op), 2, 0, cache.sequence_length);
            let kept = at.update(2, at[2] - 0);
            assert(kept =~= at);
            assert(entry(storage, at, open) == entry(part, at, open));
            assert(at.update(2, at[2] + 0) =~= at);
            assert(entry(part, at, open) == entry(cache.held(op), at, open));
        }
    }
}

} // verus!
