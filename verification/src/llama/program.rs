//! Tensor programs: the operations of a forward pass in the order in which a device performs them.
//!
//! A program is a list of nodes. Each node names an operation, the earlier nodes that it works on,
//! and the shape of its result. A program only ever holds operations whose operands fit: there is
//! a rule for each kind of operation, and a node that breaks its rule cannot be added.

use vstd::prelude::*;

verus! {

/// A tensor of a model's weights.
#[derive(Debug, Clone, Copy, PartialEq, Eq, Structural)]
pub enum Parameter {
    Embedding,
    FinalNorm,
    Head,
    InputNorm(usize),
    PostNorm(usize),
    Query(usize),
    Key(usize),
    Value(usize),
    Output(usize),
    Gate(usize),
    Up(usize),
    Down(usize),
    PackedQkv(usize),
    PackedGateUp(usize),
}

/// A half-open range.
#[derive(Debug, Clone, Copy, PartialEq, Eq, Structural)]
pub struct Span {
    pub start: usize,
    pub end: usize,
}

/// An operation over operands of type `X`.
#[derive(Debug)]
pub enum Op<X> {
    /// The token identifiers that the caller supplies.
    Tokens,
    /// Hidden states that the caller supplies.
    Hidden,
    /// What a layer's cache holds.
    CachedKey(usize),
    CachedValue(usize),
    /// Cosines and sines of every position.
    RotaryTable,
    /// A mask over scores: position `start + i` sees the keys up to its own.
    CausalMask { start: usize },
    /// Storage whose contents do not matter yet.
    Empty,
    Embed(X),
    Norm(Parameter, X),
    /// A linear map, with bias where the parameter has one.
    Project(Parameter, X),
    /// A linear map with some of the columns of a packed parameter.
    ProjectColumns(Parameter, Span, X),
    /// Part of an operand along one axis.
    Slice(X, usize, Span),
    /// The first operand with the second in place of part of it along one axis.
    SliceAssign(X, usize, Span, X),
    Reshape(X),
    SwapDims(X, usize, usize),
    /// Copies along an axis of length one.
    RepeatDim(X, usize, usize),
    Cat(X, X, usize),
    Negate(X),
    Multiply(X, X),
    Add(X, X),
    Silu(X),
    Matmul(X, X),
    /// Multiplication by the reciprocal of the square root of a number.
    ScaleByInverseRoot(X, usize),
    Softmax(X, usize),
    /// Conversion to single precision.
    ToSingle(X),
    /// Conversion of the first operand to the element type of the second.
    ToTypeOf(X, X),
    /// Interleaved rotary embedding from a position on.
    Rotate(X, usize),
    /// Fused causal attention.
    FlashAttention(X, X, X),
    /// A norm by a dedicated kernel.
    NormKernel(Parameter, X),
    /// The sum of two operands, by a kernel that also normalizes it.
    FusedSum(Parameter, X, X),
    /// What the kernel of a fused sum made of the sum.
    FusedNorm(X),
    /// Gate and up halves combined by a dedicated kernel.
    Swiglu(X),
    /// The rotated queries of a kernel that takes a packed projection apart, rotates queries and
    /// keys from a position on, and writes keys and values into storage.
    FusedQuery { projected: X, table: X, key: X, value: X, position: usize, start: usize },
    /// The key storage that a fused query's kernel wrote to.
    FusedKey(X, X),
    /// The value storage that a fused query's kernel wrote to.
    FusedValue(X, X),
    /// Attention of a single position over the first keys of storage.
    DecodeAttention(X, X, X, usize),
}

/// A node: an operation over earlier nodes, and the shape of its result.
#[derive(Debug)]
pub struct Node {
    pub op: Op<usize>,
    pub dims: Vec<usize>,
}

/// The value that a node stands for: an operation over values, and a shape.
pub enum Term {
    Unknown,
    Value { op: Box<Op<Term>>, dims: Seq<usize> },
}

/// An operation with its operands replaced.
pub open spec fn map_op<X, Y>(op: Op<X>, f: spec_fn(X) -> Y) -> Op<Y> {
    match op {
        Op::Tokens => Op::Tokens,
        Op::Hidden => Op::Hidden,
        Op::CachedKey(layer) => Op::CachedKey(layer),
        Op::CachedValue(layer) => Op::CachedValue(layer),
        Op::RotaryTable => Op::RotaryTable,
        Op::CausalMask { start } => Op::CausalMask { start },
        Op::Empty => Op::Empty,
        Op::Embed(x) => Op::Embed(f(x)),
        Op::Norm(p, x) => Op::Norm(p, f(x)),
        Op::Project(p, x) => Op::Project(p, f(x)),
        Op::ProjectColumns(p, s, x) => Op::ProjectColumns(p, s, f(x)),
        Op::Slice(x, axis, s) => Op::Slice(f(x), axis, s),
        Op::SliceAssign(x, axis, s, y) => Op::SliceAssign(f(x), axis, s, f(y)),
        Op::Reshape(x) => Op::Reshape(f(x)),
        Op::SwapDims(x, a, b) => Op::SwapDims(f(x), a, b),
        Op::RepeatDim(x, axis, n) => Op::RepeatDim(f(x), axis, n),
        Op::Cat(x, y, axis) => Op::Cat(f(x), f(y), axis),
        Op::Negate(x) => Op::Negate(f(x)),
        Op::Multiply(x, y) => Op::Multiply(f(x), f(y)),
        Op::Add(x, y) => Op::Add(f(x), f(y)),
        Op::Silu(x) => Op::Silu(f(x)),
        Op::Matmul(x, y) => Op::Matmul(f(x), f(y)),
        Op::ScaleByInverseRoot(x, n) => Op::ScaleByInverseRoot(f(x), n),
        Op::Softmax(x, axis) => Op::Softmax(f(x), axis),
        Op::ToSingle(x) => Op::ToSingle(f(x)),
        Op::ToTypeOf(x, y) => Op::ToTypeOf(f(x), f(y)),
        Op::Rotate(x, n) => Op::Rotate(f(x), n),
        Op::FlashAttention(q, k, v) => Op::FlashAttention(f(q), f(k), f(v)),
        Op::NormKernel(p, x) => Op::NormKernel(p, f(x)),
        Op::FusedSum(p, x, y) => Op::FusedSum(p, f(x), f(y)),
        Op::FusedNorm(x) => Op::FusedNorm(f(x)),
        Op::Swiglu(x) => Op::Swiglu(f(x)),
        Op::FusedQuery { projected, table, key, value, position, start } => Op::FusedQuery {
            projected: f(projected),
            table: f(table),
            key: f(key),
            value: f(value),
            position,
            start,
        },
        Op::FusedKey(x, y) => Op::FusedKey(f(x), f(y)),
        Op::FusedValue(x, y) => Op::FusedValue(f(x), f(y)),
        Op::DecodeAttention(q, k, v, n) => Op::DecodeAttention(f(q), f(k), f(v), n),
    }
}

/// A node, over mathematical sequences.
#[verifier::ext_equal]
pub struct NodeModel {
    pub op: Op<usize>,
    pub dims: Seq<usize>,
}

/// The value that node `i` stands for.
pub open spec fn term(nodes: Seq<NodeModel>, i: int) -> Term
    decreases i,
{
    if 0 <= i < nodes.len() {
        Term::Value {
            op: Box::new(
                map_op(
                    nodes[i].op,
                    |x: usize|
                        if x < i {
                            term(nodes, x as int)
                        } else {
                            Term::Unknown
                        },
                ),
            ),
            dims: nodes[i].dims,
        }
    } else {
        Term::Unknown
    }
}

/// More nodes do not change what earlier nodes stand for.
pub proof fn lemma_term_stable(nodes: Seq<NodeModel>, more: Seq<NodeModel>, i: int)
    requires
        0 <= i < nodes.len(),
    ensures
        term(nodes + more, i) == term(nodes, i),
    decreases i,
{
    let longer = nodes + more;
    assert(longer[i] == nodes[i]);
    assert forall|x: int| 0 <= x < i implies #[trigger] term(longer, x) == term(nodes, x) by {
        lemma_term_stable(nodes, more, x);
    }
    lemma_each_true(nodes[i].op);
    lemma_map_same(
        nodes[i].op,
        |x: usize|
            if x < i {
                term(longer, x as int)
            } else {
                Term::Unknown
            },
        |x: usize|
            if x < i {
                term(nodes, x as int)
            } else {
                Term::Unknown
            },
        |x: usize| true,
    );
}

proof fn lemma_each_true<X>(op: Op<X>)
    ensures
        each(op, |x: X| true),
{
}

/// Every operand of an operation has the property `p`.
pub open spec fn each<X>(op: Op<X>, p: spec_fn(X) -> bool) -> bool {
    match op {
        Op::Tokens => true,
        Op::Hidden => true,
        Op::CachedKey(_) => true,
        Op::CachedValue(_) => true,
        Op::RotaryTable => true,
        Op::CausalMask { .. } => true,
        Op::Empty => true,
        Op::Embed(x) => p(x),
        Op::Norm(_, x) => p(x),
        Op::Project(_, x) => p(x),
        Op::ProjectColumns(_, _, x) => p(x),
        Op::Slice(x, _, _) => p(x),
        Op::SliceAssign(x, _, _, y) => p(x) && p(y),
        Op::Reshape(x) => p(x),
        Op::SwapDims(x, _, _) => p(x),
        Op::RepeatDim(x, _, _) => p(x),
        Op::Cat(x, y, _) => p(x) && p(y),
        Op::Negate(x) => p(x),
        Op::Multiply(x, y) => p(x) && p(y),
        Op::Add(x, y) => p(x) && p(y),
        Op::Silu(x) => p(x),
        Op::Matmul(x, y) => p(x) && p(y),
        Op::ScaleByInverseRoot(x, _) => p(x),
        Op::Softmax(x, _) => p(x),
        Op::ToSingle(x) => p(x),
        Op::ToTypeOf(x, y) => p(x) && p(y),
        Op::Rotate(x, _) => p(x),
        Op::FlashAttention(q, k, v) => p(q) && p(k) && p(v),
        Op::NormKernel(_, x) => p(x),
        Op::FusedSum(_, x, y) => p(x) && p(y),
        Op::FusedNorm(x) => p(x),
        Op::Swiglu(x) => p(x),
        Op::FusedQuery { projected, table, key, value, .. } => p(projected) && p(table) && p(key)
            && p(value),
        Op::FusedKey(x, y) => p(x) && p(y),
        Op::FusedValue(x, y) => p(x) && p(y),
        Op::DecodeAttention(q, k, v, _) => p(q) && p(k) && p(v),
    }
}

/// The number of elements of a shape.
pub open spec fn volume(dims: Seq<usize>) -> int
    decreases dims.len(),
{
    if dims.len() == 0 {
        1
    } else {
        volume(dims.drop_last()) * dims.last()
    }
}

/// `small` can be spread over `large`: each axis is as long or has length one.
pub open spec fn spreads(small: Seq<usize>, large: Seq<usize>) -> bool {
    small.len() == large.len() && forall|k: int|
        0 <= k < small.len() ==> #[trigger] small[k] == large[k] || small[k] == 1
}

/// A range lies within an axis.
pub open spec fn within(dims: Seq<usize>, axis: usize, span: Span) -> bool {
    axis < dims.len() && span.start <= span.end <= dims[axis as int]
}

/// A shape with one axis changed.
pub open spec fn with_axis(dims: Seq<usize>, axis: usize, length: int) -> Seq<usize> {
    dims.update(axis as int, length as usize)
}

/// The rule of an operation: its operands fit, and its result has this shape.
pub open spec fn fits(op: Op<Seq<usize>>, dims: Seq<usize>) -> bool {
    match op {
        Op::Tokens => dims.len() == 2,
        Op::Hidden => dims.len() == 3,
        Op::CachedKey(_) => dims.len() == 4,
        Op::CachedValue(_) => dims.len() == 4,
        Op::RotaryTable => dims.len() == 3 && dims[2] == 2,
        Op::CausalMask { start } => dims.len() == 4 && dims[0] == 1 && dims[1] == 1 && start
            + dims[2] <= dims[3],
        Op::Empty => true,
        Op::Embed(x) => x.len() == 2 && dims.len() == 3 && dims[0] == x[0] && dims[1] == x[1],
        Op::Norm(_, x) => dims == x,
        Op::Project(_, x) => x.len() == 3 && dims.len() == 3 && dims[0] == x[0] && dims[1] == x[1],
        Op::ProjectColumns(_, span, x) => x.len() == 3 && span.start <= span.end && dims == seq![
            x[0],
            x[1],
            (span.end - span.start) as usize,
        ],
        Op::Slice(x, axis, span) => within(x, axis, span) && dims == with_axis(
            x,
            axis,
            span.end - span.start,
        ),
        Op::SliceAssign(x, axis, span, y) => within(x, axis, span) && y == with_axis(
            x,
            axis,
            span.end - span.start,
        ) && dims == x,
        Op::Reshape(x) => volume(x) == volume(dims),
        Op::SwapDims(x, a, b) => a < x.len() && b < x.len() && dims == x.update(
            a as int,
            x[b as int],
        ).update(b as int, x[a as int]),
        Op::RepeatDim(x, axis, n) => axis < x.len() && x[axis as int] == 1 && dims == with_axis(
            x,
            axis,
            n as int,
        ),
        Op::Cat(x, y, axis) => axis < x.len() && x.len() == y.len() && with_axis(x, axis, 0)
            == with_axis(y, axis, 0) && x[axis as int] + y[axis as int] <= usize::MAX && dims
            == with_axis(x, axis, x[axis as int] + y[axis as int]),
        Op::Negate(x) => dims == x,
        Op::Multiply(x, y) => spreads(y, x) && dims == x,
        Op::Add(x, y) => spreads(y, x) && dims == x,
        Op::Silu(x) => dims == x,
        Op::Matmul(x, y) => x.len() == 4 && y.len() == 4 && x[0] == y[0] && x[1] == y[1] && x[3]
            == y[2] && dims == seq![x[0], x[1], x[2], y[3]],
        Op::ScaleByInverseRoot(x, n) => n > 0 && dims == x,
        Op::Softmax(x, axis) => axis < x.len() && dims == x,
        Op::ToSingle(x) => dims == x,
        Op::ToTypeOf(x, _) => dims == x,
        Op::Rotate(x, _) => x.len() == 4 && x[3] % 2 == 0 && dims == x,
        Op::FlashAttention(q, k, v) => q.len() == 4 && k == q && v == q && dims == q,
        Op::NormKernel(_, x) => dims == x,
        Op::FusedSum(_, x, y) => x == y && dims == x,
        Op::FusedNorm(x) => dims == x,
        Op::Swiglu(x) => x.len() == 3 && dims.len() == 3 && dims[0] == x[0] && dims[1] == x[1]
            && 2 * dims[2] == x[2],
        Op::FusedQuery { projected, table, key, value, position, start } => {
            &&& projected.len() == 3 && table.len() == 3 && key.len() == 4 && value == key
            &&& dims.len() == 4 && dims[0] == projected[0] == key[0] && dims[2] == projected[1]
            &&& dims[3] == key[3] == table[1]
            &&& (dims[1] + 2 * key[1]) * dims[3] == projected[2]
            &&& start + projected[1] <= key[2]
            &&& position + projected[1] <= table[0]
        },
        Op::FusedKey(_, storage) => dims == storage,
        Op::FusedValue(_, storage) => dims == storage,
        Op::DecodeAttention(q, k, v, n) => q.len() == 4 && k.len() == 4 && v == k && q[0] == k[0]
            && q[2] == 1 && q[3] == k[3] && n <= k[2] && k[1] > 0 && q[1] as int % k[1] as int == 0
            && dims == q,
    }
}

/// Node `i` works on earlier nodes, and its operands fit.
pub open spec fn sound_node(nodes: Seq<NodeModel>, i: int) -> bool {
    &&& each(nodes[i].op, |x: usize| x < i)
    &&& fits(map_op(nodes[i].op, |x: usize| nodes[x as int].dims), nodes[i].dims)
}

/// Every node of a program works on earlier nodes that fit.
pub open spec fn sound(nodes: Seq<NodeModel>) -> bool {
    forall|i: int| 0 <= i < nodes.len() ==> #[trigger] sound_node(nodes, i)
}

/// A tensor program.
#[derive(Debug)]
pub struct Program {
    nodes: Vec<Node>,
}

/// The views of nodes.
pub open spec fn node_models(nodes: Seq<Node>) -> Seq<NodeModel> {
    Seq::new(nodes.len(), |i: int| NodeModel { op: nodes[i].op, dims: nodes[i].dims@ })
}

impl View for Program {
    type V = Seq<NodeModel>;

    closed spec fn view(&self) -> Seq<NodeModel> {
        node_models(self.nodes@)
    }
}

/// `after` is `before` with more nodes, and both are sound.
pub open spec fn extends(before: Seq<NodeModel>, after: Seq<NodeModel>) -> bool {
    &&& before.len() <= after.len() <= usize::MAX
    &&& sound(before) ==> sound(after)
    &&& forall|i: int|
        #![trigger after[i]]
        #![trigger term(after, i)]
        0 <= i < before.len() ==> after[i] == before[i] && term(after, i) == term(before, i)
}

impl Program {
    pub fn new() -> (program: Self)
        ensures
            program@.len() == 0,
            sound(program@),
    {
        Program { nodes: Vec::new() }
    }

    /// The number of nodes.
    pub fn len(&self) -> (n: usize)
        ensures
            n == self@.len(),
    {
        self.nodes.len()
    }

    /// A node.
    pub fn node(&self, i: usize) -> (node: &Node)
        requires
            i < self@.len(),
        ensures
            node.op == self@[i as int].op,
            node.dims@ == self@[i as int].dims,
    {
        &self.nodes[i]
    }

    /// One axis of the shape of a node.
    pub fn dim(&self, i: usize, axis: usize) -> (length: usize)
        requires
            i < self@.len(),
            axis < self@[i as int].dims.len(),
        ensures
            length == self@[i as int].dims[axis as int],
    {
        self.nodes[i].dims[axis]
    }

    /// Add a node that fits.
    pub fn emit(&mut self, op: Op<usize>, dims: Vec<usize>) -> (id: usize)
        requires
            each(op, |x: usize| x < old(self)@.len()),
            fits(map_op(op, |x: usize| old(self)@[x as int].dims), dims@),
        ensures
            id == old(self)@.len(),
            final(self)@ == old(self)@.push(NodeModel { op, dims: dims@ }),
            extends(old(self)@, final(self)@),
            term(final(self)@, id as int) == (Term::Value {
                op: Box::new(map_op(op, |x: usize| term(old(self)@, x as int))),
                dims: dims@,
            }),
    {
        let ghost before = self@;
        let id: usize = self.nodes.len();
        self.nodes.push(Node { op, dims });
        // A length fits a machine integer.
        let _count: usize = self.nodes.len();
        proof {
            let node = NodeModel { op, dims: dims@ };
            let after = self@;
            assert(after =~= before.push(node));
            assert(after =~= before + seq![node]);
            assert forall|i: int|
                #![trigger after[i]]
                #![trigger term(after, i)]
                0 <= i < before.len() implies after[i] == before[i] && term(after, i) == term(
                before,
                i,
            ) by {
                lemma_term_stable(before, seq![node], i);
            }
            lemma_emit_term(before, node);
            if sound(before) {
                assert forall|i: int| 0 <= i < after.len() implies #[trigger] sound_node(after, i) by {
                    if i < before.len() {
                        assert(sound_node(before, i));
                        lemma_node_kept(before, after, i);
                    } else {
                        lemma_same_shapes(op, before, after, before.len() as int);
                    }
                }
            }
        }
        id
    }
}

/// The shapes of the operands of an operation do not change with more nodes.
proof fn lemma_same_shapes(op: Op<usize>, before: Seq<NodeModel>, after: Seq<NodeModel>, n: int)
    requires
        n <= before.len() <= after.len(),
        forall|i: int| 0 <= i < before.len() ==> #[trigger] after[i] == before[i],
        each(op, |x: usize| x < n),
    ensures
        map_op(op, |x: usize| after[x as int].dims) == map_op(op, |x: usize| before[x as int].dims),
{
}

proof fn lemma_node_kept(before: Seq<NodeModel>, after: Seq<NodeModel>, i: int)
    requires
        0 <= i < before.len() <= after.len(),
        forall|j: int| 0 <= j < before.len() ==> #[trigger] after[j] == before[j],
        sound_node(before, i),
    ensures
        sound_node(after, i),
{
    lemma_same_shapes(before[i].op, before, after, i);
}

proof fn lemma_emit_term(before: Seq<NodeModel>, node: NodeModel)
    requires
        each(node.op, |x: usize| x < before.len()),
    ensures
        term(before.push(node), before.len() as int) == (Term::Value {
            op: Box::new(map_op(node.op, |x: usize| term(before, x as int))),
            dims: node.dims,
        }),
{
    let after = before.push(node);
    let n = before.len() as int;
    assert(after =~= before + seq![node]);
    assert forall|x: int| 0 <= x < n implies #[trigger] term(after, x) == term(before, x) by {
        lemma_term_stable(before, seq![node], x);
    }
    lemma_map_same(
        node.op,
        |x: usize|
            if x < n {
                term(after, x as int)
            } else {
                Term::Unknown
            },
        |x: usize| term(before, x as int),
        |x: usize| x < n,
    );
}

/// Two functions that agree on the operands of an operation map it to the same.
proof fn lemma_map_same<X, Y>(
    op: Op<X>,
    f: spec_fn(X) -> Y,
    g: spec_fn(X) -> Y,
    p: spec_fn(X) -> bool,
)
    requires
        each(op, p),
        forall|x: X| #[trigger] p(x) ==> f(x) == g(x),
    ensures
        map_op(op, f) == map_op(op, g),
{
}

} // verus!
