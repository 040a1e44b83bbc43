//! Common steps of tensor programs.

use crate::huggingface::tensors::copy_shape;
use crate::llama::cache::{dims_of, slice_term, value};
use crate::llama::program::{
    extends, fits, map_op, term, volume, with_axis, within, NodeModel, Op, Parameter, Program, Span,
    Term,
};
use vstd::prelude::*;

verus! {

/// The number of elements of three axes.
pub proof fn lemma_volume_3(a: usize, b: usize, c: usize)
    ensures
        volume(seq![a, b, c]) == a * b * c,
{
    reveal_with_fuel(volume, 4);
    assert(seq![a, b, c].drop_last() =~= seq![a, b]);
    assert(seq![a, b].drop_last() =~= seq![a]);
    assert(seq![a].drop_last() =~= Seq::<usize>::empty());
}

/// The number of elements of two axes.
pub proof fn lemma_volume_2(a: usize, b: usize)
    ensures
        volume(seq![a, b]) == a * b,
{
    reveal_with_fuel(volume, 3);
    assert(seq![a, b].drop_last() =~= seq![a]);
    assert(seq![a].drop_last() =~= Seq::<usize>::empty());
}

/// The number of elements of four axes.
pub proof fn lemma_volume_4(a: usize, b: usize, c: usize, d: usize)
    ensures
        volume(seq![a, b, c, d]) == a * b * c * d,
{
    lemma_volume_3(a, b, c);
    assert(seq![a, b, c, d].drop_last() =~= seq![a, b, c]);
}

/// The number of elements of five axes.
pub proof fn lemma_volume_5(a: usize, b: usize, c: usize, d: usize, e: usize)
    ensures
        volume(seq![a, b, c, d, e]) == a * b * c * d * e,
{
    lemma_volume_4(a, b, c, d);
    assert(seq![a, b, c, d, e].drop_last() =~= seq![a, b, c, d]);
}

/// A value with another shape.
pub open spec fn reshape_term(t: Term, dims: Seq<usize>) -> Term {
    value(Op::Reshape(t), dims)
}

/// A value with two axes exchanged.
pub open spec fn swap_term(t: Term, a: usize, b: usize) -> Term {
    let dims = dims_of(t);
    value(
        Op::SwapDims(t, a, b),
        dims.update(a as int, dims[b as int]).update(b as int, dims[a as int]),
    )
}

/// Two values joined along an axis.
pub open spec fn cat_term(x: Term, y: Term, axis: usize) -> Term {
    value(
        Op::Cat(x, y, axis),
        with_axis(dims_of(x), axis, dims_of(x)[axis as int] + dims_of(y)[axis as int]),
    )
}

/// The matrix product of two stacks of matrices.
pub open spec fn matmul_term(x: Term, y: Term) -> Term {
    value(
        Op::Matmul(x, y),
        seq![dims_of(x)[0], dims_of(x)[1], dims_of(x)[2], dims_of(y)[3]],
    )
}

/// A linear map to `width` features.
pub open spec fn project_term(parameter: Parameter, t: Term, width: usize) -> Term {
    value(Op::Project(parameter, t), seq![dims_of(t)[0], dims_of(t)[1], width])
}

/// A value after an operation that keeps its shape.
pub open spec fn same_term(op: Op<Term>, t: Term) -> Term {
    value(op, dims_of(t))
}

/// A node was added for a value, after all others.
pub open spec fn added(
    before: Seq<NodeModel>,
    after: Seq<NodeModel>,
    id: usize,
    t: Term,
) -> bool {
    &&& extends(before, after)
    &&& id < after.len()
    &&& after[id as int].dims == dims_of(t)
    &&& term(after, id as int) == t
}

impl Program {
    /// The shape of a node.
    pub fn shape(&self, i: usize) -> (dims: Vec<usize>)
        requires
            i < self@.len(),
        ensures
            dims@ == self@[i as int].dims,
    {
        copy_shape(&self.node(i).dims)
    }

    /// Add an operation that keeps the shape of `x`.
    pub fn same(&mut self, op: Op<usize>, x: usize) -> (id: usize)
        requires
            x < old(self)@.len(),
            crate::llama::program::each(op, |y: usize| y < old(self)@.len()),
            fits(
                map_op(op, |y: usize| old(self)@[y as int].dims),
                old(self)@[x as int].dims,
            ),
        ensures
            added(
                old(self)@,
                final(self)@,
                id,
                same_term(
                    map_op(op, |y: usize| term(old(self)@, y as int)),
                    term(old(self)@, x as int),
                ),
            ),
    {
        let dims = self.shape(x);
        self.emit(op, dims)
    }

    pub fn reshape(&mut self, x: usize, dims: Vec<usize>) -> (id: usize)
        requires
            x < old(self)@.len(),
            volume(old(self)@[x as int].dims) == volume(dims@),
        ensures
            added(
                old(self)@,
                final(self)@,
                id,
                reshape_term(term(old(self)@, x as int), dims@),
            ),
    {
        self.emit(Op::Reshape(x), dims)
    }

    pub fn swap_dims(&mut self, x: usize, a: usize, b: usize) -> (id: usize)
        requires
            x < old(self)@.len(),
            a < old(self)@[x as int].dims.len(),
            b < old(self)@[x as int].dims.len(),
        ensures
            added(old(self)@, final(self)@, id, swap_term(term(old(self)@, x as int), a, b)),
    {
        let mut dims = self.shape(x);
        let first: usize = dims[a];
        let second: usize = dims[b];
        dims.set(a, second);
        dims.set(b, first);
        self.emit(Op::SwapDims(x, a, b), dims)
    }

    pub fn slice(&mut self, x: usize, axis: usize, start: usize, end: usize) -> (id: usize)
        requires
            x < old(self)@.len(),
            within(old(self)@[x as int].dims, axis, Span { start, end }),
        ensures
            added(
                old(self)@,
                final(self)@,
                id,
                slice_term(term(old(self)@, x as int), axis, start, end),
            ),
    {
        let mut dims = self.shape(x);
        dims.set(axis, end - start);
        self.emit(Op::Slice(x, axis, Span { start, end }), dims)
    }

    pub fn cat(&mut self, x: usize, y: usize, axis: usize) -> (id: usize)
        requires
            x < old(self)@.len(),
            y < old(self)@.len(),
            axis < old(self)@[x as int].dims.len(),
            old(self)@[x as int].dims.len() == old(self)@[y as int].dims.len(),
            with_axis(old(self)@[x as int].dims, axis, 0) == with_axis(
                old(self)@[y as int].dims,
                axis,
                0,
            ),
            old(self)@[x as int].dims[axis as int] + old(self)@[y as int].dims[axis as int]
                <= usize::MAX,
        ensures
            added(
                old(self)@,
                final(self)@,
                id,
                cat_term(term(old(self)@, x as int), term(old(self)@, y as int), axis),
            ),
    {
        let mut dims = self.shape(x);
        let length: usize = dims[axis] + self.dim(y, axis);
        dims.set(axis, length);
        self.emit(Op::Cat(x, y, axis), dims)
    }

    pub fn matmul(&mut self, x: usize, y: usize) -> (id: usize)
        requires
            x < old(self)@.len(),
            y < old(self)@.len(),
            old(self)@[x as int].dims.len() == 4,
            old(self)@[y as int].dims.len() == 4,
            old(self)@[x as int].dims[0] == old(self)@[y as int].dims[0],
            old(self)@[x as int].dims[1] == old(self)@[y as int].dims[1],
            old(self)@[x as int].dims[3] == old(self)@[y as int].dims[2],
        ensures
            added(
                old(self)@,
                final(self)@,
                id,
                matmul_term(term(old(self)@, x as int), term(old(self)@, y as int)),
            ),
    {
        let dims = vec![self.dim(x, 0), self.dim(x, 1), self.dim(x, 2), self.dim(y, 3)];
        assert(dims@ =~= seq![
            self@[x as int].dims[0],
            self@[x as int].dims[1],
            self@[x as int].dims[2],
            self@[y as int].dims[3],
        ]);
        self.emit(Op::Matmul(x, y), dims)
    }

    pub fn project(&mut self, parameter: Parameter, x: usize, width: usize) -> (id: usize)
        requires
            x < old(self)@.len(),
            old(self)@[x as int].dims.len() == 3,
        ensures
            added(
                old(self)@,
                final(self)@,
                id,
                project_term(parameter, term(old(self)@, x as int), width),
            ),
    {
        let dims = vec![self.dim(x, 0), self.dim(x, 1), width];
        assert(dims@ =~= seq![self@[x as int].dims[0], self@[x as int].dims[1], width]);
        self.emit(Op::Project(parameter, x), dims)
    }
}

} // verus!
