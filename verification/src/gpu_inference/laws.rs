//! What the attention transformations compute, element by element, on operations of exact
//! arithmetic.

use crate::gpu_inference::layout::{
    absorb_fault, elements, folded_shape, law_folding_keeps_elements, law_folding_keeps_places,
    mla_fault, mla_value_fault, offset, output_shape, positive, pv_valid, qk_valid, score_shape,
};
use crate::gpu_inference::{
    folded_for, law_output_has_output_shape, refolded, scored, scored_by, shaped, tells_shapes, unfolded_from, weighed,
    ScoreSteps, TensorOps, ValueSteps,
};
use vstd::prelude::*;

verus! {

/// The sum of `f` over the first `n` numbers.
pub open spec fn sum(n: int, f: spec_fn(int) -> int) -> int
    decreases n,
{
    if n <= 0 {
        0
    } else {
        sum(n - 1, f) + f(n - 1)
    }
}

proof fn lemma_sum_same(n: int, f: spec_fn(int) -> int, g: spec_fn(int) -> int)
    requires
        forall|i: int| 0 <= i < n ==> #[trigger] f(i) == g(i),
    ensures
        sum(n, f) == sum(n, g),
    decreases n,
{
    if n > 0 {
        lemma_sum_same(n - 1, f, g);
        assert(f(n - 1) == g(n - 1));
    }
}

proof fn lemma_sum_added(n: int, f: spec_fn(int) -> int, g: spec_fn(int) -> int)
    ensures
        sum(n, |i: int| f(i) + g(i)) == sum(n, f) + sum(n, g),
    decreases n,
{
    if n > 0 {
        lemma_sum_added(n - 1, f, g);
    }
}

proof fn lemma_sum_scaled(n: int, f: spec_fn(int) -> int, c: int)
    ensures
        sum(n, |i: int| f(i) * c) == sum(n, f) * c,
        sum(n, |i: int| c * f(i)) == c * sum(n, f),
    decreases n,
{
    if n > 0 {
        lemma_sum_scaled(n - 1, f, c);
        assert(sum(n - 1, f) * c + f(n - 1) * c == (sum(n - 1, f) + f(n - 1)) * c)
            by (nonlinear_arith);
        assert(c * sum(n - 1, f) + c * f(n - 1) == c * (sum(n - 1, f) + f(n - 1)))
            by (nonlinear_arith);
    } else {
        assert(0 * c == 0 && c * 0 == 0);
    }
}

/// A product of a row, a matrix and a column may be grouped either way.
pub proof fn law_products_regroup(
    n: int,
    m: int,
    row: spec_fn(int) -> int,
    matrix: spec_fn(int, int) -> int,
    column: spec_fn(int) -> int,
)
    ensures
        sum(m, |j: int| sum(n, |i: int| row(i) * matrix(i, j)) * column(j)) == sum(
            n,
            |i: int| row(i) * sum(m, |j: int| matrix(i, j) * column(j)),
        ),
    decreases n,
{
    let left = |j: int| sum(n, |i: int| row(i) * matrix(i, j)) * column(j);
    let right = |i: int| row(i) * sum(m, |j: int| matrix(i, j) * column(j));
    if n <= 0 {
        lemma_sum_same(m, left, |j: int| 0 * column(j));
        lemma_sum_scaled(m, column, 0);
    } else {
        law_products_regroup(n - 1, m, row, matrix, column);
        let shorter = |j: int| sum(n - 1, |i: int| row(i) * matrix(i, j)) * column(j);
        let last = |j: int| row(n - 1) * (matrix(n - 1, j) * column(j));
        assert forall|j: int| 0 <= j < m implies #[trigger] left(j) == (|j: int|
            shorter(j) + last(j))(j) by {
            let s = sum(n - 1, |i: int| row(i) * matrix(i, j));
            let x = row(n - 1);
            let y = matrix(n - 1, j);
            let z = column(j);
            assert((s + x * y) * z == s * z + x * (y * z)) by (nonlinear_arith);
        }
        lemma_sum_same(m, left, |j: int| shorter(j) + last(j));
        lemma_sum_added(m, shorter, last);
        lemma_sum_scaled(m, |j: int| matrix(n - 1, j) * column(j), row(n - 1));
        lemma_sum_same(
            m,
            last,
            |j: int| row(n - 1) * (|j: int| matrix(n - 1, j) * column(j))(j),
        );
    }
}

/// A place in a tensor.
pub struct Place {
    pub batch: int,
    pub head: int,
    pub row: int,
    pub column: int,
}

/// A place lies within a shape.
pub open spec fn inside(shape: Seq<usize>, p: Place) -> bool {
    &&& 0 <= p.batch < shape[0]
    &&& 0 <= p.head < shape[1]
    &&& 0 <= p.row < shape[2]
    &&& 0 <= p.column < shape[3]
}

/// Where a place stands in row-major order.
pub open spec fn rank(shape: Seq<usize>, p: Place) -> int {
    offset(shape, p.batch, p.head, p.row, p.column)
}

/// An index along an axis that may be spread.
pub open spec fn spread(length: usize, i: int) -> int {
    if length == 1 {
        0
    } else {
        i
    }
}

/// The length of an axis that two others are spread over.
pub open spec fn spread_length(a: usize, b: usize) -> usize {
    if a == 1 {
        b
    } else {
        a
    }
}

/// An element of a matrix product.
pub open spec fn dot<T>(
    at: spec_fn(T, Place) -> int,
    x: T,
    xs: Seq<usize>,
    y: T,
    ys: Seq<usize>,
    p: Place,
) -> int {
    sum(
        xs[3] as int,
        |i: int|
            at(
                x,
                Place {
                    batch: spread(xs[0], p.batch),
                    head: spread(xs[1], p.head),
                    row: p.row,
                    column: i,
                },
            ) * at(
                y,
                Place {
                    batch: spread(ys[0], p.batch),
                    head: spread(ys[1], p.head),
                    row: i,
                    column: p.column,
                },
            ),
    )
}

/// A shape is reported of a tensor.
pub open spec fn has_shape<T, S: Fn(&T) -> [usize; 4], R, W, M, A>(
    ops: &TensorOps<S, R, W, M, A>,
    t: T,
) -> bool {
    exists|dims: [usize; 4]| #[trigger] shaped(ops, t, dims)
}

/// The operations do what their names say, `at` telling the elements of tensors.
pub open spec fn exact<
    T,
    S: Fn(&T) -> [usize; 4],
    R: Fn(T, [usize; 4]) -> T,
    W: Fn(T, usize, usize) -> T,
    M: Fn(T, T) -> T,
    A: Fn(T, T) -> T,
>(ops: &TensorOps<S, R, W, M, A>, at: spec_fn(T, Place) -> int) -> bool {
    &&& tells_shapes::<T, S, R, W, M, A>(ops)
    &&& forall|t: T, from: [usize; 4], to: [usize; 4], after: T, p: Place, q: Place|
        #![trigger call_ensures(ops.reshape, (t, to), after), shaped(ops, t, from), rank(from@, p), rank(to@, q)]
        call_ensures(ops.reshape, (t, to), after) && shaped(ops, t, from) && elements(from@)
            == elements(to@) && inside(from@, p) && inside(to@, q) && rank(from@, p) == rank(to@, q)
            ==> at(after, q) == at(t, p)
    &&& forall|t: T, from: [usize; 4], after: T, to: [usize; 4]|
        #![trigger call_ensures(ops.swap_dims, (t, 2usize, 3usize), after), shaped(ops, t, from), shaped(ops, after, to)]
        call_ensures(ops.swap_dims, (t, 2usize, 3usize), after) && shaped(ops, t, from) && shaped(
            ops,
            after,
            to,
        ) ==> to@ == seq![from@[0], from@[1], from@[3], from@[2]]
    &&& forall|t: T, after: T, p: Place|
        #![trigger call_ensures(ops.swap_dims, (t, 2usize, 3usize), after), at(after, p)]
        call_ensures(ops.swap_dims, (t, 2usize, 3usize), after) ==> at(after, p) == at(
            t,
            Place { row: p.column, column: p.row, ..p },
        )
    &&& forall|x: T, xs: [usize; 4], y: T, ys: [usize; 4], z: T, zs: [usize; 4]|
        #![trigger call_ensures(ops.matmul, (x, y), z), shaped(ops, x, xs), shaped(ops, y, ys), shaped(ops, z, zs)]
        call_ensures(ops.matmul, (x, y), z) && shaped(ops, x, xs) && shaped(ops, y, ys) && shaped(
            ops,
            z,
            zs,
        ) ==> zs@ == seq![
            spread_length(xs@[0], ys@[0]),
            spread_length(xs@[1], ys@[1]),
            xs@[2],
            ys@[3],
        ]
    &&& forall|x: T, xs: [usize; 4], y: T, ys: [usize; 4], z: T, p: Place|
        #![trigger call_ensures(ops.matmul, (x, y), z), shaped(ops, x, xs), shaped(ops, y, ys), at(z, p)]
        call_ensures(ops.matmul, (x, y), z) && shaped(ops, x, xs) && shaped(ops, y, ys) ==> at(z, p)
            == dot(at, x, xs@, y, ys@, p)
    &&& forall|x: T, y: T, z: T, p: Place|
        #![trigger call_ensures(ops.add, (x, y), z), at(z, p)]
        call_ensures(ops.add, (x, y), z) ==> at(z, p) == at(x, p) + at(y, p)
    &&& forall|t: T| #[trigger] has_shape(ops, t)
}

/// Where query head `h` stands once the heads of a group are rows of their KV head.
pub open spec fn folded_place(shape: Seq<usize>, kv_heads: usize, p: Place) -> Place {
    let group = shape[1] as int / kv_heads as int;
    Place { head: p.head / group, row: p.head % group * shape[2] + p.row, ..p }
}

/// Refolding moves no element.
proof fn lemma_refolded<
    T,
    S: Fn(&T) -> [usize; 4],
    R: Fn(T, [usize; 4]) -> T,
    W: Fn(T, usize, usize) -> T,
    M: Fn(T, T) -> T,
    A: Fn(T, T) -> T,
>(
    ops: &TensorOps<S, R, W, M, A>,
    at: spec_fn(T, Place) -> int,
    open: [usize; 4],
    folded: [usize; 4],
    kv_heads: usize,
    p: Place,
)
    requires
        exact(ops, at),
        positive(open@),
        kv_heads > 0,
        open@[1] as int % kv_heads as int == 0,
        folded@ == folded_shape(open@, kv_heads),
        inside(open@, p),
    ensures
        inside(folded@, folded_place(open@, kv_heads, p)),
        forall|t: T, after: T|
            shaped(ops, t, open) && #[trigger] refolded(ops, t, open, folded, after) ==> at(
                after,
                folded_place(open@, kv_heads, p),
            ) == at(t, p),
        forall|t: T, after: T|
            shaped(ops, t, folded) && #[trigger] refolded(ops, t, folded, open, after) ==> at(
                after,
                p,
            ) == at(t, folded_place(open@, kv_heads, p)),
{
    let q = folded_place(open@, kv_heads, p);
    law_folding_keeps_places(open@, kv_heads, p.batch, p.head, p.row, p.column);
    law_folding_keeps_elements(open@, kv_heads);
    assert(rank(folded@, q) == rank(open@, p));
    if open@ == folded@ {
        assert(open@[1] == kv_heads);
        let group = open@[1] as int / kv_heads as int;
        assert(group == 1) by (nonlinear_arith)
            requires
                group == open@[1] as int / kv_heads as int,
                open@[1] == kv_heads,
                kv_heads > 0,
        ;
        assert(p.head / group == p.head && p.head % group * open@[2] == 0) by (nonlinear_arith)
            requires
                group == 1,
        ;
        assert(q == p);
    }
}

/// The score of a query position against a key, with the key head of the query head's group.
pub open spec fn score<T>(
    at: spec_fn(T, Place) -> int,
    query: T,
    key: T,
    width: usize,
    group: int,
    p: Place,
) -> int {
    sum(
        width as int,
        |i: int|
            at(query, Place { column: i, ..p }) * at(
                key,
                Place { batch: p.batch, head: p.head / group, row: p.column, column: i },
            ),
    )
}

/// Scores are the products of each query head with the key head of its group, as if key heads had
/// been repeated.
pub proof fn law_scores_use_the_group_head<
    T,
    S: Fn(&T) -> [usize; 4],
    R: Fn(T, [usize; 4]) -> T,
    W: Fn(T, usize, usize) -> T,
    M: Fn(T, T) -> T,
    A: Fn(T, T) -> T,
>(
    ops: &TensorOps<S, R, W, M, A>,
    at: spec_fn(T, Place) -> int,
    query: T,
    key: T,
    scores: T,
    q: [usize; 4],
    k: [usize; 4],
    p: Place,
)
    requires
        exact(ops, at),
        scored(ops, query, key, scores),
        shaped(ops, query, q),
        shaped(ops, key, k),
        qk_valid(q@, k@),
        inside(score_shape(q@, k@), p),
    ensures
        at(scores, p) == score(at, query, key, q@[3], q@[1] as int / k@[1] as int, p),
{
    let steps = choose|steps: ScoreSteps<T>| #[trigger] scored_by(ops, query, key, scores, steps);
    let kv = k@[1];
    let group = q@[1] as int / kv as int;
    assert(steps.query_shape@ == q@ && steps.key_shape@ == k@);
    let r = folded_place(score_shape(q@, k@), kv, p);
    // The shapes of what the product is made of.
    assert(has_shape(ops, steps.folded) && has_shape(ops, steps.transposed));
    let f = choose|dims: [usize; 4]| #[trigger] shaped(ops, steps.folded, dims);
    let t = choose|dims: [usize; 4]| #[trigger] shaped(ops, steps.transposed, dims);
    assert(f@ == steps.folded_shape@);
    assert(t@ == seq![k@[0], k@[1], k@[3], k@[2]]);
    assert(steps.product_shape@ =~= folded_shape(steps.score_shape@, kv));
    lemma_refolded(ops, at, steps.score_shape, steps.product_shape, kv, p);
    assert(at(scores, p) == at(steps.product, r));
    assert(at(steps.product, r) == dot(at, steps.folded, f@, steps.transposed, t@, r));
    let left = |i: int|
        at(
            steps.folded,
            Place {
                batch: spread(f@[0], r.batch),
                head: spread(f@[1], r.head),
                row: r.row,
                column: i,
            },
        ) * at(
            steps.transposed,
            Place {
                batch: spread(t@[0], r.batch),
                head: spread(t@[1], r.head),
                row: i,
                column: r.column,
            },
        );
    let right = |i: int|
        at(query, Place { column: i, ..p }) * at(
            key,
            Place { batch: p.batch, head: p.head / group, row: p.column, column: i },
        );
    assert forall|i: int| 0 <= i < q@[3] implies #[trigger] left(i) == right(i) by {
        let from = Place { column: i, ..p };
        lemma_refolded(ops, at, steps.query_shape, steps.folded_shape, kv, from);
        let to = folded_place(q@, kv, from);
        assert(to == Place {
            batch: spread(f@[0], r.batch),
            head: spread(f@[1], r.head),
            row: r.row,
            column: i,
        });
        assert(at(steps.folded, to) == at(query, from));
        let turned = Place {
            batch: spread(t@[0], r.batch),
            head: spread(t@[1], r.head),
            row: i,
            column: r.column,
        };
        assert(at(steps.transposed, turned) == at(
            key,
            Place { row: turned.column, column: turned.row, ..turned },
        ));
    }
    lemma_sum_same(q@[3] as int, left, right);
}

/// A value weighed with the probabilities of a query position, with the value head of the query
/// head's group.
pub open spec fn mixture<T>(
    at: spec_fn(T, Place) -> int,
    probabilities: T,
    value: T,
    length: usize,
    group: int,
    p: Place,
) -> int {
    sum(
        length as int,
        |i: int|
            at(probabilities, Place { column: i, ..p }) * at(
                value,
                Place { batch: p.batch, head: p.head / group, row: i, column: p.column },
            ),
    )
}

/// A value product weighs, for each query head, the value head of its group, as if value heads had
/// been repeated.
pub proof fn law_values_use_the_group_head<
    T,
    S: Fn(&T) -> [usize; 4],
    R: Fn(T, [usize; 4]) -> T,
    W: Fn(T, usize, usize) -> T,
    M: Fn(T, T) -> T,
    A: Fn(T, T) -> T,
>(
    ops: &TensorOps<S, R, W, M, A>,
    at: spec_fn(T, Place) -> int,
    probabilities: T,
    value: T,
    output: T,
    ps: [usize; 4],
    vs: [usize; 4],
    p: Place,
)
    requires
        exact(ops, at),
        weighed(ops, probabilities, value, output),
        shaped(ops, probabilities, ps),
        shaped(ops, value, vs),
        pv_valid(ps@, vs@),
        inside(output_shape(ps@, vs@), p),
    ensures
        at(output, p) == mixture(
            at,
            probabilities,
            value,
            ps@[3],
            ps@[1] as int / vs@[1] as int,
            p,
        ),
{
    let (steps, product) = choose|steps: ValueSteps<T>, product: T|
        #[trigger] folded_for(ops, probabilities, value, steps) && #[trigger] call_ensures(
            ops.matmul,
            (steps.folded, value),
            product,
        ) && unfolded_from(ops, steps, product, output);
    let product_shape = choose|product_shape: [usize; 4]| #[trigger]
        shaped(ops, product, product_shape) && refolded(
            ops,
            product,
            product_shape,
            steps.output_shape,
            output,
        );
    let kv = vs@[1];
    let group = ps@[1] as int / kv as int;
    assert(steps.probability_shape@ == ps@ && steps.value_shape@ == vs@);
    let r = folded_place(output_shape(ps@, vs@), kv, p);
    assert(has_shape(ops, steps.folded));
    let f = choose|dims: [usize; 4]| #[trigger] shaped(ops, steps.folded, dims);
    assert(f@ == steps.folded_shape@);
    assert(product_shape@ =~= folded_shape(steps.output_shape@, kv));
    lemma_refolded(ops, at, steps.output_shape, product_shape, kv, p);
    assert(at(output, p) == at(product, r));
    assert(at(product, r) == dot(at, steps.folded, f@, value, vs@, r));
    let left = |i: int|
        at(
            steps.folded,
            Place {
                batch: spread(f@[0], r.batch),
                head: spread(f@[1], r.head),
                row: r.row,
                column: i,
            },
        ) * at(
            value,
            Place {
                batch: spread(vs@[0], r.batch),
                head: spread(vs@[1], r.head),
                row: i,
                column: r.column,
            },
        );
    let right = |i: int|
        at(probabilities, Place { column: i, ..p }) * at(
            value,
            Place { batch: p.batch, head: p.head / group, row: i, column: p.column },
        );
    assert forall|i: int| 0 <= i < ps@[3] implies #[trigger] left(i) == right(i) by {
        let from = Place { column: i, ..p };
        lemma_refolded(ops, at, steps.probability_shape, steps.folded_shape, kv, from);
        let to = folded_place(ps@, kv, from);
        assert(to == Place {
            batch: spread(f@[0], r.batch),
            head: spread(f@[1], r.head),
            row: r.row,
            column: i,
        });
        assert(at(steps.folded, to) == at(probabilities, from));
    }
    lemma_sum_same(ps@[3] as int, left, right);
}

/// An element of the key that the latent history at `row` expands to for a head.
pub open spec fn expanded_key<T>(
    at: spec_fn(T, Place) -> int,
    projection: T,
    latent: T,
    rank: usize,
    p: Place,
) -> int {
    sum(
        rank as int,
        |j: int|
            at(projection, Place { batch: 0, head: p.head, row: p.column, column: j }) * at(
                latent,
                Place { batch: p.batch, head: 0, row: p.row, column: j },
            ),
    )
}

/// Scoring absorbed queries against the compressed history gives the scores of the queries against
/// the keys that the history expands to, together with those of the rotated positions.
pub proof fn law_absorbed_scores_match_expanded_keys<
    T,
    S: Fn(&T) -> [usize; 4],
    R: Fn(T, [usize; 4]) -> T,
    W: Fn(T, usize, usize) -> T,
    M: Fn(T, T) -> T,
    A: Fn(T, T) -> T,
>(
    ops: &TensorOps<S, R, W, M, A>,
    at: spec_fn(T, Place) -> int,
    query: T,
    projection: T,
    absorbed: T,
    position_query: T,
    latent: T,
    position_cache: T,
    content: T,
    position: T,
    scores: T,
    q: [usize; 4],
    w: [usize; 4],
    qa: [usize; 4],
    qp: [usize; 4],
    c: [usize; 4],
    kp: [usize; 4],
    p: Place,
)
    requires
        exact(ops, at),
        shaped(ops, query, q),
        shaped(ops, projection, w),
        shaped(ops, absorbed, qa),
        shaped(ops, position_query, qp),
        shaped(ops, latent, c),
        shaped(ops, position_cache, kp),
        absorb_fault(q@, w@) is None,
        mla_fault(qa@, qp@, c@, kp@) is None,
        call_ensures(ops.matmul, (query, projection), absorbed),
        scored(ops, absorbed, latent, content),
        scored(ops, position_query, position_cache, position),
        call_ensures(ops.add, (content, position), scores),
        inside(score_shape(qa@, c@), p),
    ensures
        at(scores, p) == sum(
            q@[3] as int,
            |d: int|
                at(query, Place { column: d, ..p }) * expanded_key(
                    at,
                    projection,
                    latent,
                    c@[3],
                    Place { batch: p.batch, head: p.head, row: p.column, column: d },
                ),
        ) + sum(
            qp@[3] as int,
            |i: int|
                at(position_query, Place { column: i, ..p }) * at(
                    position_cache,
                    Place { batch: p.batch, head: 0, row: p.column, column: i },
                ),
        ),
{
    let heads = qa@[1] as int;
    assert(qa@ =~= seq![q@[0], q@[1], q@[2], w@[3]]);
    law_scores_use_the_group_head(ops, at, absorbed, latent, content, qa, c, p);
    law_scores_use_the_group_head(
        ops,
        at,
        position_query,
        position_cache,
        position,
        qp,
        kp,
        p,
    );
    assert(heads / 1 == heads);
    assert(p.head / heads == 0) by (nonlinear_arith)
        requires
            0 <= p.head < heads,
    ;
    let row = |d: int| at(query, Place { column: d, ..p });
    let matrix = |d: int, j: int|
        at(projection, Place { batch: 0, head: p.head, row: d, column: j });
    let column = |j: int| at(latent, Place { batch: p.batch, head: 0, row: p.column, column: j });
    let n = q@[3] as int;
    let m = c@[3] as int;
    // What the absorbed queries are made of.
    let content_terms = |j: int|
        at(absorbed, Place { column: j, ..p }) * at(
            latent,
            Place { batch: p.batch, head: p.head / heads, row: p.column, column: j },
        );
    let grouped = |j: int| sum(n, |d: int| row(d) * matrix(d, j)) * column(j);
    assert forall|j: int| 0 <= j < m implies #[trigger] content_terms(j) == grouped(j) by {
        let place = Place { column: j, ..p };
        assert(at(absorbed, place) == dot(at, query, q@, projection, w@, place));
        let dotted = |i: int|
            at(
                query,
                Place {
                    batch: spread(q@[0], place.batch),
                    head: spread(q@[1], place.head),
                    row: place.row,
                    column: i,
                },
            ) * at(
                projection,
                Place {
                    batch: spread(w@[0], place.batch),
                    head: spread(w@[1], place.head),
                    row: i,
                    column: place.column,
                },
            );
        let plain = |d: int| row(d) * matrix(d, j);
        assert forall|i: int| 0 <= i < n implies #[trigger] dotted(i) == plain(i) by {
            assert(Place {
                batch: spread(q@[0], place.batch),
                head: spread(q@[1], place.head),
                row: place.row,
                column: i,
            } == Place { column: i, ..p });
        }
        lemma_sum_same(n, dotted, plain);
    }
    lemma_sum_same(m, content_terms, grouped);
    law_products_regroup(n, m, row, matrix, column);
    let regrouped = |d: int| row(d) * sum(m, |j: int| matrix(d, j) * column(j));
    let expanded = |d: int|
        at(query, Place { column: d, ..p }) * expanded_key(
            at,
            projection,
            latent,
            c@[3],
            Place { batch: p.batch, head: p.head, row: p.column, column: d },
        );
    assert forall|d: int| 0 <= d < n implies #[trigger] regrouped(d) == expanded(d) by {
        let key = Place { batch: p.batch, head: p.head, row: p.column, column: d };
        lemma_sum_same(
            m,
            |j: int| matrix(d, j) * column(j),
            |j: int|
                at(projection, Place { batch: 0, head: key.head, row: key.column, column: j }) * at(
                    latent,
                    Place { batch: key.batch, head: 0, row: key.row, column: j },
                ),
        );
    }
    lemma_sum_same(n, regrouped, expanded);
    let position_terms = |i: int|
        at(position_query, Place { column: i, ..p }) * at(
            position_cache,
            Place { batch: p.batch, head: p.head / heads, row: p.column, column: i },
        );
    lemma_sum_same(
        qp@[3] as int,
        position_terms,
        |i: int|
            at(position_query, Place { column: i, ..p }) * at(
                position_cache,
                Place { batch: p.batch, head: 0, row: p.column, column: i },
            ),
    );
}

/// An element of the value that the latent history at `row` expands to for a head.
pub open spec fn expanded_value<T>(
    at: spec_fn(T, Place) -> int,
    latent: T,
    projection: T,
    rank: usize,
    p: Place,
) -> int {
    sum(
        rank as int,
        |j: int|
            at(latent, Place { batch: p.batch, head: 0, row: p.row, column: j }) * at(
                projection,
                Place { batch: 0, head: p.head, row: j, column: p.column },
            ),
    )
}

/// Attending to the compressed history and expanding afterwards gives what attending to the values
/// that the history expands to gives.
pub proof fn law_compressed_values_match_expanded_values<
    T,
    S: Fn(&T) -> [usize; 4],
    R: Fn(T, [usize; 4]) -> T,
    W: Fn(T, usize, usize) -> T,
    M: Fn(T, T) -> T,
    A: Fn(T, T) -> T,
>(
    ops: &TensorOps<S, R, W, M, A>,
    at: spec_fn(T, Place) -> int,
    probabilities: T,
    latent: T,
    projection: T,
    context: T,
    output: T,
    ps: [usize; 4],
    c: [usize; 4],
    w: [usize; 4],
    p: Place,
)
    requires
        exact(ops, at),
        shaped(ops, probabilities, ps),
        shaped(ops, latent, c),
        shaped(ops, projection, w),
        mla_value_fault(ps@, c@, w@) is None,
        weighed(ops, probabilities, latent, context),
        call_ensures(ops.matmul, (context, projection), output),
        inside(seq![ps@[0], ps@[1], ps@[2], w@[3]], p),
    ensures
        at(output, p) == sum(
            ps@[3] as int,
            |t: int|
                at(probabilities, Place { column: t, ..p }) * expanded_value(
                    at,
                    latent,
                    projection,
                    c@[3],
                    Place { batch: p.batch, head: p.head, row: t, column: p.column },
                ),
        ),
{
    let heads = ps@[1] as int;
    assert(has_shape(ops, context));
    let cs = choose|dims: [usize; 4]| #[trigger] shaped(ops, context, dims);
    law_output_has_output_shape(
        ops,
        probabilities,
        latent,
        context,
        ps,
        c,
        cs,
    );
    assert(heads / 1 == heads);
    assert(p.head / heads == 0) by (nonlinear_arith)
        requires
            0 <= p.head < heads,
    ;
    let row = |t: int| at(probabilities, Place { column: t, ..p });
    let matrix = |t: int, j: int|
        at(latent, Place { batch: p.batch, head: 0, row: t, column: j });
    let column = |j: int| at(projection, Place { batch: 0, head: p.head, row: j, column: p.column });
    let n = ps@[3] as int;
    let m = c@[3] as int;
    assert(at(output, p) == dot(at, context, cs@, projection, w@, p));
    let dotted = |j: int|
        at(
            context,
            Place {
                batch: spread(cs@[0], p.batch),
                head: spread(cs@[1], p.head),
                row: p.row,
                column: j,
            },
        ) * at(
            projection,
            Place {
                batch: spread(w@[0], p.batch),
                head: spread(w@[1], p.head),
                row: j,
                column: p.column,
            },
        );
    let grouped = |j: int| sum(n, |t: int| row(t) * matrix(t, j)) * column(j);
    assert forall|j: int| 0 <= j < m implies #[trigger] dotted(j) == grouped(j) by {
        let place = Place { column: j, ..p };
        assert(place == Place {
            batch: spread(cs@[0], p.batch),
            head: spread(cs@[1], p.head),
            row: p.row,
            column: j,
        });
        law_values_use_the_group_head(ops, at, probabilities, latent, context, ps, c, place);
        lemma_sum_same(
            n,
            |i: int|
                at(probabilities, Place { column: i, ..place }) * at(
                    latent,
                    Place {
                        batch: place.batch,
                        head: place.head / heads,
                        row: i,
                        column: place.column,
                    },
                ),
            |t: int| row(t) * matrix(t, j),
        );
    }
    lemma_sum_same(m, dotted, grouped);
    law_products_regroup(n, m, row, matrix, column);
    let regrouped = |t: int| row(t) * sum(m, |j: int| matrix(t, j) * column(j));
    let expanded = |t: int|
        at(probabilities, Place { column: t, ..p }) * expanded_value(
            at,
            latent,
            projection,
            c@[3],
            Place { batch: p.batch, head: p.head, row: t, column: p.column },
        );
    assert forall|t: int| 0 <= t < n implies #[trigger] regrouped(t) == expanded(t) by {
        let place = Place { batch: p.batch, head: p.head, row: t, column: p.column };
        lemma_sum_same(
            m,
            |j: int| matrix(t, j) * column(j),
            |j: int|
                at(latent, Place { batch: place.batch, head: 0, row: place.row, column: j }) * at(
                    projection,
                    Place { batch: 0, head: place.head, row: j, column: place.column },
                ),
        );
    }
    lemma_sum_same(n, regrouped, expanded);
}

} // verus!
