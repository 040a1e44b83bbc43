//! Linear maps, heads and rotary positions.

use crate::llama::attention::{apply_half_split_rope, half_split_rotated, RotaryLayout};
use crate::llama::cache::dims_of;
use crate::llama::program::{term, Op, Parameter, Program, Term};
use crate::llama::steps::{
    added, lemma_volume_3, lemma_volume_4, project_term, reshape_term, same_term, swap_term,
};
use vstd::prelude::*;

verus! {

/// The order in which a linear map's weights are stored.
#[derive(Clone, Copy, Debug, PartialEq, Eq, Structural)]
pub enum LinearLayout {
    Row,
    Col,
}

/// The shape of a linear map.
#[derive(Clone, Copy, Debug, PartialEq, Eq, Structural)]
pub struct Linear {
    pub inputs: usize,
    pub outputs: usize,
    /// The length of the bias, where there is one.
    pub bias: Option<usize>,
    pub layout: LinearLayout,
}

/// The shape of a table of rotary frequencies.
#[derive(Clone, Copy, Debug, PartialEq, Eq, Structural)]
pub struct RotaryEncoding {
    pub positions: usize,
    pub width: usize,
}

impl Linear {
    pub fn init(inputs: usize, outputs: usize, bias: bool, layout: LinearLayout) -> (linear: Self)
        ensures
            linear == (Linear {
                inputs,
                outputs,
                bias: if bias {
                    Some(outputs)
                } else {
                    None
                },
                layout,
            }),
    {
        Linear {
            inputs,
            outputs,
            bias: if bias {
                Some(outputs)
            } else {
                None
            },
            layout,
        }
    }

    /// Apply the map to the features of an input.
    pub fn forward(&self, program: &mut Program, parameter: Parameter, input: usize) -> (id: usize)
        requires
            input < old(program)@.len(),
            old(program)@[input as int].dims.len() == 3,
            old(program)@[input as int].dims[2] == self.inputs,
        ensures
            added(
                old(program)@,
                final(program)@,
                id,
                project_term(parameter, term(old(program)@, input as int), self.outputs),
            ),
            final(program)@[id as int].dims == seq![
                old(program)@[input as int].dims[0],
                old(program)@[input as int].dims[1],
                self.outputs,
            ],
    {
        program.project(parameter, input, self.outputs)
    }
}

/// Features split into heads, in `[B, H, S, D]` order.
pub open spec fn heads_of(t: Term, heads: usize, width: usize) -> Term {
    let d = dims_of(t);
    swap_term(reshape_term(t, seq![d[0], d[1], heads, width]), 1, 2)
}

/// Split features into heads.
pub fn split_heads(program: &mut Program, input: usize, heads: usize, width: usize) -> (id: usize)
    requires
        input < old(program)@.len(),
        old(program)@[input as int].dims.len() == 3,
        old(program)@[input as int].dims[2] == heads * width,
    ensures
        added(
            old(program)@,
            final(program)@,
            id,
            heads_of(term(old(program)@, input as int), heads, width),
        ),
        final(program)@[id as int].dims == seq![
            old(program)@[input as int].dims[0],
            heads,
            old(program)@[input as int].dims[1],
            width,
        ],
{
    let batch: usize = program.dim(input, 0);
    let sequence: usize = program.dim(input, 1);
    let features: usize = program.dim(input, 2);
    let dims = vec![batch, sequence, heads, width];
    proof {
        assert(program@[input as int].dims =~= seq![batch, sequence, features]);
        assert(dims@ =~= seq![batch, sequence, heads, width]);
        lemma_volume_3(batch, sequence, features);
        lemma_volume_4(batch, sequence, heads, width);
        assert(batch * sequence * features == batch * sequence * heads * width)
            by (nonlinear_arith)
            requires
                features == heads * width,
        ;
    }
    let split: usize = program.reshape(input, dims);
    let id: usize = program.swap_dims(split, 1, 2);
    assert(program@[id as int].dims =~= seq![batch, heads, sequence, width]);
    id
}

/// Heads joined into features again.
pub open spec fn merged(context: Term) -> Term {
    let d = dims_of(context);
    reshape_term(swap_term(context, 1, 2), seq![d[0], d[2], (d[1] * d[3]) as usize])
}

/// Heads joined into features, without a copy where there is one position.
pub open spec fn joined(context: Term) -> Term {
    let d = dims_of(context);
    if d[2] == 1 {
        reshape_term(context, seq![d[0], d[2], (d[1] * d[3]) as usize])
    } else {
        merged(context)
    }
}

/// Join heads into features.
pub fn merge_heads(program: &mut Program, context: usize) -> (id: usize)
    requires
        context < old(program)@.len(),
        old(program)@[context as int].dims.len() == 4,
        old(program)@[context as int].dims[1] * old(program)@[context as int].dims[3] <= usize::MAX,
    ensures
        added(old(program)@, final(program)@, id, merged(term(old(program)@, context as int))),
        final(program)@[id as int].dims == seq![
            old(program)@[context as int].dims[0],
            old(program)@[context as int].dims[2],
            (old(program)@[context as int].dims[1] * old(program)@[context as int].dims[3])
                as usize,
        ],
{
    let batch: usize = program.dim(context, 0);
    let heads: usize = program.dim(context, 1);
    let sequence: usize = program.dim(context, 2);
    let width: usize = program.dim(context, 3);
    let features: usize = heads * width;
    let swapped: usize = program.swap_dims(context, 1, 2);
    let dims = vec![batch, sequence, features];
    proof {
        assert(program@[swapped as int].dims =~= seq![batch, sequence, heads, width]);
        assert(dims@ =~= seq![batch, sequence, features]);
        lemma_volume_3(batch, sequence, features);
        lemma_volume_4(batch, sequence, heads, width);
        assert(batch * sequence * features == batch * sequence * heads * width)
            by (nonlinear_arith)
            requires
                features == heads * width,
        ;
    }
    program.reshape(swapped, dims)
}

/// Join heads into features. `[B, H, 1, D]` already has the same physical element order as
/// `[B, 1, H * D]`; swapping the two singleton-adjacent axes first would make the device
/// materialize an otherwise unnecessary copy.
pub fn join_heads(program: &mut Program, context: usize) -> (id: usize)
    requires
        context < old(program)@.len(),
        old(program)@[context as int].dims.len() == 4,
        old(program)@[context as int].dims[1] * old(program)@[context as int].dims[3] <= usize::MAX,
    ensures
        added(old(program)@, final(program)@, id, joined(term(old(program)@, context as int))),
        final(program)@[id as int].dims == seq![
            old(program)@[context as int].dims[0],
            old(program)@[context as int].dims[2],
            (old(program)@[context as int].dims[1] * old(program)@[context as int].dims[3])
                as usize,
        ],
{
    let sequence: usize = program.dim(context, 2);
    if sequence != 1 {
        return merge_heads(program, context);
    }
    let batch: usize = program.dim(context, 0);
    let heads: usize = program.dim(context, 1);
    let width: usize = program.dim(context, 3);
    let features: usize = heads * width;
    let dims = vec![batch, sequence, features];
    proof {
        assert(program@[context as int].dims =~= seq![batch, heads, sequence, width]);
        assert(dims@ =~= seq![batch, sequence, features]);
        lemma_volume_3(batch, sequence, features);
        lemma_volume_4(batch, heads, sequence, width);
        assert(batch * sequence * features == batch * heads * sequence * width)
            by (nonlinear_arith)
            requires
                features == heads * width,
                sequence == 1,
        ;
    }
    program.reshape(context, dims)
}

/// A value with its positions, from `start` on, rotated into its heads.
pub open spec fn rotated(layout: RotaryLayout, rope: RotaryEncoding, t: Term, start: usize) -> Term {
    match layout {
        RotaryLayout::Interleaved => same_term(Op::Rotate(t, start), t),
        RotaryLayout::HalfSplit => half_split_rotated(t, rope.positions, start),
    }
}

/// Rotate positions, from `start` on, into heads.
pub fn apply_rope(
    layout: RotaryLayout,
    rope: RotaryEncoding,
    program: &mut Program,
    input: usize,
    start: usize,
) -> (id: usize)
    requires
        input < old(program)@.len(),
        old(program)@[input as int].dims.len() == 4,
        old(program)@[input as int].dims[3] % 2 == 0,
        start + old(program)@[input as int].dims[2] <= rope.positions,
    ensures
        added(
            old(program)@,
            final(program)@,
            id,
            rotated(layout, rope, term(old(program)@, input as int), start),
        ),
        final(program)@[id as int].dims == old(program)@[input as int].dims,
{
    match layout {
        RotaryLayout::Interleaved => program.same(Op::Rotate(input, start), input),
        RotaryLayout::HalfSplit => apply_half_split_rope(program, rope.positions, input, start),
    }
}

} // verus!
