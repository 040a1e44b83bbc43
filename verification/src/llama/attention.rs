//! Attention as tensor programs.

use crate::llama::cache::{dims_of, slice_term, value};
use crate::llama::program::{spreads, term, with_axis, Op, Program, Term};
use crate::llama::steps::{
    added, cat_term, lemma_volume_2, lemma_volume_3, lemma_volume_4, lemma_volume_5, matmul_term,
    reshape_term, same_term, swap_term,
};
use vstd::prelude::*;

verus! {

#[derive(Clone, Copy, Debug, PartialEq, Eq, Structural)]
pub enum RotaryLayout {
    Interleaved,
    HalfSplit,
}

/// KV heads repeated so that there is one for each query head.
#[verifier::opaque]
pub open spec fn repeated_heads(t: Term, repeats: usize) -> Term {
    let d = dims_of(t);
    if repeats == 1 {
        t
    } else {
        let spread = reshape_term(t, seq![d[0], d[1], 1, d[2], d[3]]);
        let copies = value(
            Op::RepeatDim(spread, 2, repeats),
            seq![d[0], d[1], repeats, d[2], d[3]],
        );
        reshape_term(copies, seq![d[0], (d[1] * repeats) as usize, d[2], d[3]])
    }
}

/// Repeat KV heads.
pub fn repeat_kv(program: &mut Program, input: usize, repeats: usize) -> (id: usize)
    requires
        input < old(program)@.len(),
        old(program)@[input as int].dims.len() == 4,
        repeats > 0,
        old(program)@[input as int].dims[1] * repeats <= usize::MAX,
    ensures
        added(
            old(program)@,
            final(program)@,
            id,
            repeated_heads(term(old(program)@, input as int), repeats),
        ),
        final(program)@[id as int].dims == seq![
            old(program)@[input as int].dims[0],
            (old(program)@[input as int].dims[1] * repeats) as usize,
            old(program)@[input as int].dims[2],
            old(program)@[input as int].dims[3],
        ],
{
    proof {
        reveal(repeated_heads);
    }
    // A length fits a machine integer.
    let _count: usize = program.len();
    let batch: usize = program.dim(input, 0);
    let heads: usize = program.dim(input, 1);
    let sequence: usize = program.dim(input, 2);
    let width: usize = program.dim(input, 3);
    let ghost d = program@[input as int].dims;
    assert(d =~= seq![batch, heads, sequence, width]);
    if repeats == 1 {
        return input;
    }
    let wide = vec![batch, heads, 1, sequence, width];
    proof {
        assert(wide@ =~= seq![batch, heads, 1usize, sequence, width]);
        lemma_volume_4(batch, heads, sequence, width);
        lemma_volume_5(batch, heads, 1, sequence, width);
        assert(batch * heads * 1 * sequence * width == batch * heads * sequence * width)
            by (nonlinear_arith);
    }
    let spread: usize = program.reshape(input, wide);
    let copied = vec![batch, heads, repeats, sequence, width];
    proof {
        assert(copied@ =~= seq![batch, heads, repeats, sequence, width]);
        assert(with_axis(program@[spread as int].dims, 2, repeats as int) =~= copied@);
    }
    let copies: usize = program.emit(Op::RepeatDim(spread, 2, repeats), copied);
    let all: usize = heads * repeats;
    let folded = vec![batch, all, sequence, width];
    proof {
        assert(folded@ =~= seq![batch, all, sequence, width]);
        lemma_volume_5(batch, heads, repeats, sequence, width);
        lemma_volume_4(batch, all, sequence, width);
        assert(batch * heads * repeats * sequence * width == batch * (heads * repeats) * sequence
            * width) by (nonlinear_arith);
    }
    program.reshape(copies, folded)
}

/// The cosine and sine of each frequency, for the positions from `start` on.
#[verifier::opaque]
pub open spec fn half_split_pairs(
    positions: usize,
    width: usize,
    start: usize,
    sequence: usize,
) -> Term {
    let half = (width / 2) as usize;
    let end = (start + sequence) as usize;
    let table = value(Op::RotaryTable, seq![positions, width, 2]);
    let rows = slice_term(table, 0, start, end);
    let quads = reshape_term(rows, seq![sequence, half, 2, 2]);
    let singles = slice_term(quads, 2, 0, 1);
    reshape_term(singles, seq![sequence, half, 2])
}

/// The cosines (`part` 0) or sines (`part` 1) of pairs, for both halves of a head.
#[verifier::opaque]
pub open spec fn half_split_factors(pairs: Term, width: usize, part: usize) -> Term {
    let sequence = dims_of(pairs)[0];
    let half = dims_of(pairs)[1];
    let column = slice_term(pairs, 2, part, (part + 1) as usize);
    let flat = reshape_term(column, seq![sequence, half]);
    let both = cat_term(flat, flat, 1);
    reshape_term(both, seq![1, 1, sequence, width])
}

/// A value with the halves of its heads rotated against one another.
#[verifier::opaque]
pub open spec fn half_split_rotated(t: Term, positions: usize, start: usize) -> Term {
    let d = dims_of(t);
    let half = (d[3] / 2) as usize;
    let pairs = half_split_pairs(positions, d[3], start, d[2]);
    let cosine = half_split_factors(pairs, d[3], 0);
    let sine = half_split_factors(pairs, d[3], 1);
    let first = slice_term(t, 3, 0, half);
    let second = slice_term(t, 3, half, d[3]);
    let rotated = cat_term(same_term(Op::Negate(second), second), first, 3);
    let left = same_term(Op::Multiply(t, cosine), t);
    let right = same_term(Op::Multiply(rotated, sine), rotated);
    same_term(Op::Add(left, right), left)
}

/// Read the rotary table.
fn read_half_split_pairs(
    program: &mut Program,
    positions: usize,
    width: usize,
    start: usize,
    sequence: usize,
) -> (id: usize)
    requires
        width % 2 == 0,
        start + sequence <= positions,
    ensures
        added(
            old(program)@,
            final(program)@,
            id,
            half_split_pairs(positions, width, start, sequence),
        ),
        final(program)@[id as int].dims == seq![sequence, (width / 2) as usize, 2usize],
{
    proof {
        reveal(half_split_pairs);
    }
    let half: usize = width / 2;
    let end: usize = start + sequence;
    let table_dims = vec![positions, width, 2];
    assert(table_dims@ =~= seq![positions, width, 2usize]);
    let table: usize = program.emit(Op::RotaryTable, table_dims);
    let rows: usize = program.slice(table, 0, start, end);
    let quad_dims = vec![sequence, half, 2, 2];
    proof {
        assert(quad_dims@ =~= seq![sequence, half, 2usize, 2usize]);
        assert(program@[rows as int].dims =~= seq![sequence, width, 2usize]);
        lemma_volume_3(sequence, width, 2);
        lemma_volume_4(sequence, half, 2, 2);
        assert(sequence * width * 2 == sequence * half * 2 * 2) by (nonlinear_arith)
            requires
                width == 2 * half,
        ;
    }
    let quads: usize = program.reshape(rows, quad_dims);
    let singles: usize = program.slice(quads, 2, 0, 1);
    let pair_dims = vec![sequence, half, 2];
    proof {
        assert(pair_dims@ =~= seq![sequence, half, 2usize]);
        assert(program@[singles as int].dims =~= seq![sequence, half, 1usize, 2usize]);
        lemma_volume_4(sequence, half, 1, 2);
        lemma_volume_3(sequence, half, 2);
        assert(sequence * half * 1 * 2 == sequence * half * 2) by (nonlinear_arith);
    }
    program.reshape(singles, pair_dims)
}

/// Spread one of the two columns of pairs over both halves of a head.
fn half_split_factor(program: &mut Program, pairs: usize, width: usize, part: usize) -> (id: usize)
    requires
        pairs < old(program)@.len(),
        old(program)@[pairs as int].dims.len() == 3,
        old(program)@[pairs as int].dims[1] * 2 == width,
        old(program)@[pairs as int].dims[2] == 2,
        part < 2,
    ensures
        added(
            old(program)@,
            final(program)@,
            id,
            half_split_factors(term(old(program)@, pairs as int), width, part),
        ),
        final(program)@[id as int].dims == seq![
            1usize,
            1usize,
            old(program)@[pairs as int].dims[0],
            width,
        ],
{
    proof {
        reveal(half_split_factors);
    }
    let sequence: usize = program.dim(pairs, 0);
    let half: usize = program.dim(pairs, 1);
    let column: usize = program.slice(pairs, 2, part, part + 1);
    let flat_dims = vec![sequence, half];
    proof {
        assert(flat_dims@ =~= seq![sequence, half]);
        assert(program@[column as int].dims =~= seq![sequence, half, 1usize]);
        lemma_volume_3(sequence, half, 1);
        lemma_volume_2(sequence, half);
        assert(sequence * half * 1 == sequence * half) by (nonlinear_arith);
    }
    let flat: usize = program.reshape(column, flat_dims);
    let both: usize = program.cat(flat, flat, 1);
    let dims = vec![1, 1, sequence, width];
    proof {
        assert(dims@ =~= seq![1usize, 1usize, sequence, width]);
        assert(program@[both as int].dims =~= seq![sequence, width]);
        lemma_volume_2(sequence, width);
        lemma_volume_4(1, 1, sequence, width);
        assert(1 * 1 * sequence * width == sequence * width) by (nonlinear_arith);
    }
    program.reshape(both, dims)
}

/// Qwen2 repeats each RoPE frequency across the first and second halves of a
/// head, then rotates those halves against one another. A stock rotary encoding
/// instead rotates adjacent pairs, so recover the cached cosine/sine values and
/// apply Qwen's exact layout explicitly.
pub fn apply_half_split_rope(
    program: &mut Program,
    positions: usize,
    input: usize,
    start: usize,
) -> (id: usize)
    requires
        input < old(program)@.len(),
        old(program)@[input as int].dims.len() == 4,
        old(program)@[input as int].dims[3] % 2 == 0,
        start + old(program)@[input as int].dims[2] <= positions,
    ensures
        added(
            old(program)@,
            final(program)@,
            id,
            half_split_rotated(term(old(program)@, input as int), positions, start),
        ),
        final(program)@[id as int].dims == old(program)@[input as int].dims,
{
    proof {
        reveal(half_split_rotated);
    }
    let ghost d = program@[input as int].dims;
    let sequence: usize = program.dim(input, 2);
    let width: usize = program.dim(input, 3);
    let half: usize = width / 2;
    let pairs: usize = read_half_split_pairs(program, positions, width, start, sequence);
    let cosine: usize = half_split_factor(program, pairs, width, 0);
    let sine: usize = half_split_factor(program, pairs, width, 1);
    let first: usize = program.slice(input, 3, 0, half);
    let second: usize = program.slice(input, 3, half, width);
    let negated: usize = program.same(Op::Negate(second), second);
    proof {
        assert(with_axis(program@[negated as int].dims, 3, 0) =~= with_axis(
            program@[first as int].dims,
            3,
            0,
        ));
    }
    let rotated: usize = program.cat(negated, first, 3);
    proof {
        assert(program@[rotated as int].dims =~= d);
        assert(spreads(program@[cosine as int].dims, d));
        assert(spreads(program@[sine as int].dims, d));
    }
    let left: usize = program.same(Op::Multiply(input, cosine), input);
    let right: usize = program.same(Op::Multiply(rotated, sine), rotated);
    assert(spreads(program@[right as int].dims, program@[left as int].dims));
    program.same(Op::Add(left, right), left)
}

/// The single-precision bits that are added to a score that counts: zero.
pub const VISIBLE_BITS: u32 = 0;

/// The single-precision bits that are added to a score that must not count: -1e30.
pub const MASKED_BITS: u32 = 0xF149_F2CA;

/// What is added to the score of query position `start + i` for key `j`.
pub open spec fn mask_bits(start: int, i: int, j: int) -> u32 {
    if j <= start + i {
        VISIBLE_BITS
    } else {
        MASKED_BITS
    }
}

/// The causal mask, row by row: each query position sees the keys up to its own.
pub fn causal_attention_mask(query_sequence: usize, key_sequence: usize, query_start: usize) -> (mask:
    Vec<u32>)
    requires
        query_start + query_sequence <= key_sequence,
        query_sequence * key_sequence <= usize::MAX,
    ensures
        mask@.len() == query_sequence * key_sequence,
        forall|i: int, j: int|
            0 <= i < query_sequence && 0 <= j < key_sequence ==> #[trigger] mask@[i * key_sequence
                + j] == mask_bits(query_start as int, i, j),
{
    let mut mask: Vec<u32> = Vec::new();
    let mut i: usize = 0;
    while i < query_sequence
        invariant
            i <= query_sequence,
            query_start + query_sequence <= key_sequence,
            mask@.len() == i * key_sequence,
            forall|a: int, b: int|
                0 <= a < i && 0 <= b < key_sequence ==> #[trigger] mask@[a * key_sequence + b]
                    == mask_bits(query_start as int, a, b),
        decreases query_sequence - i,
    {
        let last_visible: usize = query_start + i;
        let ghost before = mask@;
        let mut j: usize = 0;
        while j < key_sequence
            invariant
                i < query_sequence,
                j <= key_sequence,
                last_visible == query_start + i,
                before.len() == i * key_sequence,
                mask@.len() == i * key_sequence + j,
                forall|k: int| 0 <= k < before.len() ==> #[trigger] mask@[k] == before[k],
                forall|b: int|
                    0 <= b < j ==> #[trigger] mask@[i * key_sequence + b] == mask_bits(
                        query_start as int,
                        i as int,
                        b,
                    ),
            decreases key_sequence - j,
        {
            mask.push(
                if j <= last_visible {
                    VISIBLE_BITS
                } else {
                    MASKED_BITS
                },
            );
            j += 1;
        }
        proof {
            assert(i * key_sequence + key_sequence == (i + 1) * key_sequence) by (nonlinear_arith);
            assert forall|a: int, b: int|
                0 <= a < i + 1 && 0 <= b < key_sequence implies #[trigger] mask@[a * key_sequence
                + b] == mask_bits(query_start as int, a, b) by {
                if a < i {
                    assert(a * key_sequence + b < i * key_sequence) by (nonlinear_arith)
                        requires
                            a + 1 <= i,
                            0 <= b < key_sequence,
                    ;
                    assert(0 <= a * key_sequence + b) by (nonlinear_arith)
                        requires
                            0 <= a,
                            0 <= b,
                            0 <= key_sequence,
                    ;
                    assert(before[a * key_sequence + b] == mask_bits(query_start as int, a, b));
                }
            }
        }
        i += 1;
    }
    mask
}

/// The context that attention makes of queries, keys, values and a mask. Softmax is evaluated in
/// single precision.
#[verifier::opaque]
pub open spec fn masked_attention(query: Term, key: Term, values: Term, mask: Term) -> Term {
    let typed = same_term(Op::ToTypeOf(mask, query), mask);
    let transposed = swap_term(key, 2, 3);
    let product = matmul_term(query, transposed);
    let scaled = same_term(Op::ScaleByInverseRoot(product, dims_of(query)[3]), product);
    let scores = same_term(Op::Add(scaled, typed), scaled);
    let single = same_term(Op::ToSingle(scores), scores);
    let shares = same_term(Op::Softmax(single, 3), single);
    let probabilities = same_term(Op::ToTypeOf(shares, values), shares);
    matmul_term(probabilities, values)
}

/// Queries, keys and values that attention can work on.
pub open spec fn attends(query: Seq<usize>, key: Seq<usize>, values: Seq<usize>) -> bool {
    &&& query.len() == 4 && key.len() == 4 && values == key
    &&& query[0] == key[0] && query[1] == key[1] && query[3] == key[3]
    &&& query[3] > 0
}

/// Attention with a given mask.
pub fn causal_attention_with_mask(
    program: &mut Program,
    query: usize,
    key: usize,
    values: usize,
    mask: usize,
) -> (id: usize)
    requires
        query < old(program)@.len(),
        key < old(program)@.len(),
        values < old(program)@.len(),
        mask < old(program)@.len(),
        attends(
            old(program)@[query as int].dims,
            old(program)@[key as int].dims,
            old(program)@[values as int].dims,
        ),
        old(program)@[mask as int].dims == seq![
            1usize,
            1usize,
            old(program)@[query as int].dims[2],
            old(program)@[key as int].dims[2],
        ],
    ensures
        added(
            old(program)@,
            final(program)@,
            id,
            masked_attention(
                term(old(program)@, query as int),
                term(old(program)@, key as int),
                term(old(program)@, values as int),
                term(old(program)@, mask as int),
            ),
        ),
        final(program)@[id as int].dims == old(program)@[query as int].dims,
{
    proof {
        reveal(masked_attention);
    }
    let width: usize = program.dim(query, 3);
    let ghost d = program@[query as int].dims;
    let typed: usize = program.same(Op::ToTypeOf(mask, query), mask);
    let transposed: usize = program.swap_dims(key, 2, 3);
    let product: usize = program.matmul(query, transposed);
    let scaled: usize = program.same(Op::ScaleByInverseRoot(product, width), product);
    assert(spreads(program@[typed as int].dims, program@[scaled as int].dims));
    let scores: usize = program.same(Op::Add(scaled, typed), scaled);
    let single: usize = program.same(Op::ToSingle(scores), scores);
    let shares: usize = program.same(Op::Softmax(single, 3), single);
    let probabilities: usize = program.same(Op::ToTypeOf(shares, values), shares);
    let context: usize = program.matmul(probabilities, values);
    assert(program@[context as int].dims =~= d);
    context
}

/// The causal mask of queries that begin at `start`.
pub open spec fn mask_term(query_sequence: usize, key_sequence: usize, start: usize) -> Term {
    value(Op::CausalMask { start }, seq![1, 1, query_sequence, key_sequence])
}

/// The context of causal attention.
pub open spec fn attended(query: Term, key: Term, values: Term, start: usize) -> Term {
    masked_attention(
        query,
        key,
        values,
        mask_term(dims_of(query)[2], dims_of(key)[2], start),
    )
}

/// Causal attention of queries that begin at `query_start`.
pub fn causal_attention(
    program: &mut Program,
    query: usize,
    key: usize,
    values: usize,
    query_start: usize,
) -> (id: usize)
    requires
        query < old(program)@.len(),
        key < old(program)@.len(),
        values < old(program)@.len(),
        attends(
            old(program)@[query as int].dims,
            old(program)@[key as int].dims,
            old(program)@[values as int].dims,
        ),
        query_start + old(program)@[query as int].dims[2] <= old(program)@[key as int].dims[2],
    ensures
        added(
            old(program)@,
            final(program)@,
            id,
            attended(
                term(old(program)@, query as int),
                term(old(program)@, key as int),
                term(old(program)@, values as int),
                query_start,
            ),
        ),
        final(program)@[id as int].dims == old(program)@[query as int].dims,
{
    let dims = vec![1, 1, program.dim(query, 2), program.dim(key, 2)];
    assert(dims@ =~= seq![
        1usize,
        1usize,
        program@[query as int].dims[2],
        program@[key as int].dims[2],
    ]);
    let mask: usize = program.emit(Op::CausalMask { start: query_start }, dims);
    causal_attention_with_mask(program, query, key, values, mask)
}

} // verus!
