//! Model-independent attention tensor transformations for device backends.
//!
//! These are composition-level candidates, not CUDA/ROCm kernel implementations.
//! The caller supplies device-resident tensor operations; this module never reads
//! tensor elements, constructs CPU masks, or moves tensor data between devices.
//! Shapes are checked before the corresponding malformed operation could be launched.
//! The backend retains responsibility for dtype, device, and matmul validation.
//!
//! Masking, softmax, positional embeddings, cache ownership and model-specific
//! scaling deliberately remain outside this module. In particular, do NOT scale
//! MLA logits by the inverse square root of the compressed-cache rank.

use vstd::prelude::*;

pub mod laws;
pub mod layout;

use crate::gpu_inference::layout::{
    absorb_fault, folded_shape, mla_fault, mla_value_fault, output_shape, pv_layout, pv_valid,
    qk_layout, qk_valid, same_shape, score_shape,
};

verus! {

/// Minimal operations on four-dimensional device tensors.
///
/// The operations avoid assuming a runtime type. They dispatch existing tensor
/// operations, not element-wise host loops. Backend errors/panics retain that
/// backend's behavior. `reshape` may allocate for noncontiguous inputs; this
/// interface makes no zero-copy guarantee.
pub struct TensorOps<S, R, W, M, A> {
    /// Return shape metadata, without downloading tensor contents.
    pub shape: S,
    /// Reshape in logical row-major axis order.
    pub reshape: R,
    /// Transpose the requested logical axes.
    pub swap_dims: W,
    /// Batched matrix multiply with standard leading-axis broadcasting.
    pub matmul: M,
    /// Element-wise addition with standard broadcasting.
    pub add: A,
}

/// The operations may be called on any tensor.
pub open spec fn callable<
    T,
    S: Fn(&T) -> [usize; 4],
    R: Fn(T, [usize; 4]) -> T,
    W: Fn(T, usize, usize) -> T,
    M: Fn(T, T) -> T,
    A: Fn(T, T) -> T,
>(ops: &TensorOps<S, R, W, M, A>) -> bool {
    &&& forall|t: &T| #[trigger] call_requires(ops.shape, (t,))
    &&& forall|t: T, dims: [usize; 4]| #[trigger] call_requires(ops.reshape, (t, dims))
    &&& forall|t: T, a: usize, b: usize| #[trigger] call_requires(ops.swap_dims, (t, a, b))
    &&& forall|a: T, b: T| #[trigger] call_requires(ops.matmul, (a, b))
    &&& forall|a: T, b: T| #[trigger] call_requires(ops.add, (a, b))
}

/// `t` may be reported to have shape `dims`.
pub open spec fn shaped<T, S: Fn(&T) -> [usize; 4], R, W, M, A>(
    ops: &TensorOps<S, R, W, M, A>,
    t: T,
    dims: [usize; 4],
) -> bool {
    call_ensures(ops.shape, (&t,), dims)
}

/// `after` is `before` with shape `to`: the same tensor where it has that shape already, and what a
/// reshape of it returned where it has not.
pub open spec fn refolded<T, S, R: Fn(T, [usize; 4]) -> T, W, M, A>(
    ops: &TensorOps<S, R, W, M, A>,
    before: T,
    from: [usize; 4],
    to: [usize; 4],
    after: T,
) -> bool {
    if from@ == to@ {
        after == before
    } else {
        call_ensures(ops.reshape, (before, to), after)
    }
}

/// The tensors and shapes that a score computation goes through.
pub struct ScoreSteps<T> {
    pub query_shape: [usize; 4],
    pub key_shape: [usize; 4],
    pub folded_shape: [usize; 4],
    pub score_shape: [usize; 4],
    pub folded: T,
    pub transposed: T,
    pub product: T,
    pub product_shape: [usize; 4],
}

/// `scores` is the product of the query, folded onto the key heads, with the transposed key,
/// unfolded again.
pub open spec fn scored_by<
    T,
    S: Fn(&T) -> [usize; 4],
    R: Fn(T, [usize; 4]) -> T,
    W: Fn(T, usize, usize) -> T,
    M: Fn(T, T) -> T,
    A,
>(ops: &TensorOps<S, R, W, M, A>, query: T, key: T, scores: T, steps: ScoreSteps<T>) -> bool {
    &&& shaped(ops, query, steps.query_shape)
    &&& shaped(ops, key, steps.key_shape)
    &&& steps.folded_shape@ == folded_shape(steps.query_shape@, steps.key_shape@[1])
    &&& steps.score_shape@ == score_shape(steps.query_shape@, steps.key_shape@)
    &&& refolded(ops, query, steps.query_shape, steps.folded_shape, steps.folded)
    &&& call_ensures(ops.swap_dims, (key, 2usize, 3usize), steps.transposed)
    &&& call_ensures(ops.matmul, (steps.folded, steps.transposed), steps.product)
    &&& shaped(ops, steps.product, steps.product_shape)
    &&& refolded(ops, steps.product, steps.product_shape, steps.score_shape, scores)
}

/// `scores` may be what scoring a query against a key returns.
pub open spec fn scored<
    T,
    S: Fn(&T) -> [usize; 4],
    R: Fn(T, [usize; 4]) -> T,
    W: Fn(T, usize, usize) -> T,
    M: Fn(T, T) -> T,
    A,
>(ops: &TensorOps<S, R, W, M, A>, query: T, key: T, scores: T) -> bool {
    exists|steps: ScoreSteps<T>| #[trigger] scored_by(ops, query, key, scores, steps)
}

/// Every shape that may be reported of these tensors allows scoring one against the other.
pub open spec fn scorable<T, S: Fn(&T) -> [usize; 4], R, W, M, A>(
    ops: &TensorOps<S, R, W, M, A>,
    query: T,
    key: T,
) -> bool {
    forall|q: [usize; 4], k: [usize; 4]| #[trigger]
        shaped(ops, query, q) && #[trigger] shaped(ops, key, k) ==> qk_valid(q@, k@)
}

/// Compute raw GQA/MQA/MHA logits without repeating cached key heads.
///
/// Inputs are [B,Hq,S,D] and [B,Hkv,T,D], with head order
/// `(KV head, query head within its group)`. Returns [B,Hq,S,T].
/// This is NOT FlashAttention: the full score tensor is still materialized.
pub fn gqa_scores<
    T,
    S: Fn(&T) -> [usize; 4],
    R: Fn(T, [usize; 4]) -> T,
    W: Fn(T, usize, usize) -> T,
    M: Fn(T, T) -> T,
    A: Fn(T, T) -> T,
>(ops: &TensorOps<S, R, W, M, A>, query: T, key: T) -> (scores: T)
    requires
        callable::<T, S, R, W, M, A>(ops),
        scorable(ops, query, key),
    ensures
        scored(ops, query, key, scores),
{
    let ghost given_query = query;
    let ghost given_key = key;
    let original: [usize; 4] = (ops.shape)(&query);
    let key_shape: [usize; 4] = (ops.shape)(&key);
    assert(shaped(ops, query, original));
    assert(shaped(ops, key, key_shape));
    let (folded, scores) = qk_layout(original, key_shape);
    let query = if same_shape(&folded, &original) {
        query
    } else {
        (ops.reshape)(query, folded)
    };
    let ghost folded_query = query;
    let key = (ops.swap_dims)(key, 2, 3);
    let ghost transposed = key;
    let result = (ops.matmul)(query, key);
    let ghost product = result;
    let result_shape: [usize; 4] = (ops.shape)(&result);
    let result = if same_shape(&result_shape, &scores) {
        result
    } else {
        (ops.reshape)(result, scores)
    };
    proof {
        let steps = ScoreSteps {
            query_shape: original,
            key_shape,
            folded_shape: folded,
            score_shape: scores,
            folded: folded_query,
            transposed,
            product,
            product_shape: result_shape,
        };
        assert(scored_by(ops, given_query, given_key, result, steps));
    }
    result
}

/// The tensors and shapes that a value product goes through.
pub struct ValueSteps<T> {
    pub probability_shape: [usize; 4],
    pub value_shape: [usize; 4],
    pub folded_shape: [usize; 4],
    pub output_shape: [usize; 4],
    pub folded: T,
}

/// The probabilities are folded onto the value heads.
pub open spec fn folded_for<T, S: Fn(&T) -> [usize; 4], R: Fn(T, [usize; 4]) -> T, W, M, A>(
    ops: &TensorOps<S, R, W, M, A>,
    probabilities: T,
    value: T,
    steps: ValueSteps<T>,
) -> bool {
    &&& shaped(ops, probabilities, steps.probability_shape)
    &&& shaped(ops, value, steps.value_shape)
    &&& steps.folded_shape@ == folded_shape(steps.probability_shape@, steps.value_shape@[1])
    &&& steps.output_shape@ == output_shape(steps.probability_shape@, steps.value_shape@)
    &&& refolded(ops, probabilities, steps.probability_shape, steps.folded_shape, steps.folded)
}

/// `output` is `product`, unfolded to the shape that `steps` derive.
pub open spec fn unfolded_from<T, S: Fn(&T) -> [usize; 4], R: Fn(T, [usize; 4]) -> T, W, M, A>(
    ops: &TensorOps<S, R, W, M, A>,
    steps: ValueSteps<T>,
    product: T,
    output: T,
) -> bool {
    exists|product_shape: [usize; 4]| #[trigger]
        shaped(ops, product, product_shape) && refolded(
            ops,
            product,
            product_shape,
            steps.output_shape,
            output,
        )
}

/// What a value product with the product callback's answer comes to.
pub open spec fn weighed_with<T, S: Fn(&T) -> [usize; 4], R: Fn(T, [usize; 4]) -> T, W, M, A, E>(
    ops: &TensorOps<S, R, W, M, A>,
    steps: ValueSteps<T>,
    answer: Result<T, E>,
    result: Result<T, E>,
) -> bool {
    match answer {
        Ok(product) => result matches Ok(output) && unfolded_from(ops, steps, product, output),
        Err(error) => result == Err::<T, E>(error),
    }
}

/// Every shape that may be reported of these tensors allows weighing one with the other.
pub open spec fn weighable<T, S: Fn(&T) -> [usize; 4], R, W, M, A>(
    ops: &TensorOps<S, R, W, M, A>,
    probabilities: T,
    value: T,
) -> bool {
    forall|p: [usize; 4], v: [usize; 4]| #[trigger]
        shaped(ops, probabilities, p) && #[trigger] shaped(ops, value, v) ==> pv_valid(p@, v@)
}

/// Apply attention probabilities without repeating value heads.
///
/// The supplied product callback preserves an adapter's existing accumulation,
/// cast, and error policy. Only the tensor layouts are changed.
pub fn gqa_value_product_with<
    T,
    E,
    S: Fn(&T) -> [usize; 4],
    R: Fn(T, [usize; 4]) -> T,
    W: Fn(T, usize, usize) -> T,
    M: Fn(T, T) -> T,
    A: Fn(T, T) -> T,
    P: FnOnce(T, T) -> Result<T, E>,
>(ops: &TensorOps<S, R, W, M, A>, probabilities: T, value: T, product: P) -> (result: Result<T, E>)
    requires
        callable::<T, S, R, W, M, A>(ops),
        weighable(ops, probabilities, value),
        forall|p: T, v: T| #[trigger] call_requires(product, (p, v)),
    ensures
        exists|steps: ValueSteps<T>, answer: Result<T, E>|
            #[trigger] folded_for(ops, probabilities, value, steps) && #[trigger] call_ensures(
                product,
                (steps.folded, value),
                answer,
            ) && weighed_with(ops, steps, answer, result),
{
    let ghost given = probabilities;
    let original: [usize; 4] = (ops.shape)(&probabilities);
    let value_shape: [usize; 4] = (ops.shape)(&value);
    assert(shaped(ops, probabilities, original));
    assert(shaped(ops, value, value_shape));
    let (folded, output) = pv_layout(original, value_shape);
    let probabilities = if same_shape(&folded, &original) {
        probabilities
    } else {
        (ops.reshape)(probabilities, folded)
    };
    let ghost steps = ValueSteps {
        probability_shape: original,
        value_shape,
        folded_shape: folded,
        output_shape: output,
        folded: probabilities,
    };
    assert(folded_for(ops, given, value, steps));
    let answer = product(probabilities, value);
    let ghost given_answer = answer;
    let result = match answer {
        Ok(result) => result,
        Err(error) => {
            assert(weighed_with(ops, steps, given_answer, Err::<T, E>(error)));
            return Err(error);
        },
    };
    let ghost raw = result;
    let result_shape: [usize; 4] = (ops.shape)(&result);
    assert(shaped(ops, raw, result_shape));
    let result = if same_shape(&result_shape, &output) {
        result
    } else {
        (ops.reshape)(result, output)
    };
    assert(weighed_with(ops, steps, given_answer, Ok::<T, E>(result)));
    Ok(result)
}

/// `output` may be what weighing a value with probabilities returns.
pub open spec fn weighed<
    T,
    S: Fn(&T) -> [usize; 4],
    R: Fn(T, [usize; 4]) -> T,
    W,
    M: Fn(T, T) -> T,
    A,
>(ops: &TensorOps<S, R, W, M, A>, probabilities: T, value: T, output: T) -> bool {
    exists|steps: ValueSteps<T>, product: T|
        #[trigger] folded_for(ops, probabilities, value, steps) && #[trigger] call_ensures(
            ops.matmul,
            (steps.folded, value),
            product,
        ) && unfolded_from(ops, steps, product, output)
}

/// Value product using the caller's default device matrix multiplication.
pub fn gqa_value_product<
    T,
    S: Fn(&T) -> [usize; 4],
    R: Fn(T, [usize; 4]) -> T,
    W: Fn(T, usize, usize) -> T,
    M: Fn(T, T) -> T,
    A: Fn(T, T) -> T,
>(ops: &TensorOps<S, R, W, M, A>, probabilities: T, value: T) -> (output: T)
    requires
        callable::<T, S, R, W, M, A>(ops),
        weighable(ops, probabilities, value),
    ensures
        weighed(ops, probabilities, value, output),
{
    let multiply = |p: T, v: T| -> (answer: Result<T, ()>)
        ensures
            answer matches Ok(product) && call_ensures(ops.matmul, (p, v), product),
        { Ok((ops.matmul)(p, v)) };
    let ghost given = probabilities;
    let ghost given_value = value;
    let result: Result<T, ()> = gqa_value_product_with(ops, probabilities, value, multiply);
    proof {
        let (steps, answer) = choose|steps: ValueSteps<T>, answer: Result<T, ()>|
            #[trigger] folded_for(ops, given, given_value, steps) && #[trigger] call_ensures(
                multiply,
                (steps.folded, given_value),
                answer,
            ) && weighed_with(ops, steps, answer, result);
        assert(call_ensures(ops.matmul, (steps.folded, given_value), answer->Ok_0));
        assert(result is Ok);
    }
    match result {
        Ok(tensor) => tensor,
        Err(_) => vstd::pervasive::unreached(),
    }
}

/// Every shape that may be reported of these tensors allows absorbing one into the other.
pub open spec fn absorbable<T, S: Fn(&T) -> [usize; 4], R, W, M, A>(
    ops: &TensorOps<S, R, W, M, A>,
    query: T,
    projection: T,
) -> bool {
    forall|q: [usize; 4], w: [usize; 4]| #[trigger]
        shaped(ops, query, q) && #[trigger] shaped(ops, projection, w) ==> absorb_fault(
            q@,
            w@,
        ) is None
}

/// Absorb the non-positional MLA key expansion into the current queries.
///
/// `query` is [B,H,S,Dn]; the already prepared key projection is [1,H,Dn,R].
/// Returns [B,H,S,R]. Projection weights must already have the correct layout,
/// dtype, and dequantization; this is not a checkpoint loader.
pub fn mla_absorb_query<
    T,
    S: Fn(&T) -> [usize; 4],
    R: Fn(T, [usize; 4]) -> T,
    W: Fn(T, usize, usize) -> T,
    M: Fn(T, T) -> T,
    A: Fn(T, T) -> T,
>(ops: &TensorOps<S, R, W, M, A>, query: T, key_projection: T) -> (absorbed: T)
    requires
        callable::<T, S, R, W, M, A>(ops),
        absorbable(ops, query, key_projection),
    ensures
        call_ensures(ops.matmul, (query, key_projection), absorbed),
{
    (ops.matmul)(query, key_projection)
}

/// Every shape that may be reported of these tensors allows scoring against compressed history.
pub open spec fn mla_scorable<T, S: Fn(&T) -> [usize; 4], R, W, M, A>(
    ops: &TensorOps<S, R, W, M, A>,
    absorbed_query: T,
    position_query: T,
    latent_cache: T,
    position_cache: T,
) -> bool {
    &&& forall|q: [usize; 4], qp: [usize; 4], c: [usize; 4], kp: [usize; 4]| #[trigger]
        shaped(ops, absorbed_query, q) && #[trigger] shaped(ops, position_query, qp)
            && #[trigger] shaped(ops, latent_cache, c) && #[trigger] shaped(ops, position_cache, kp)
            ==> mla_fault(q@, qp@, c@, kp@) is None
}

/// Compute raw dense MLA scores directly from shared compressed history.
///
/// Query tensors: absorbed content [B,H,S,R], rotated position [B,H,S,P].
/// Cache tensors: normalized latent [B,1,T,R], rotated position [B,1,T,P].
/// RoPE must already be applied with the correct model convention. Returns
/// [B,H,S,T], BEFORE model-specific scaling, masks, bias, softcap and softmax.
/// Sparse MLA, padding, sliding windows and chunk positions are NOT inferred.
/// This composition can allocate two score-sized temporaries; use a dedicated
/// fused kernel, not this path unconditionally, for long-context prefill.
pub fn mla_scores<
    T,
    S: Fn(&T) -> [usize; 4],
    R: Fn(T, [usize; 4]) -> T,
    W: Fn(T, usize, usize) -> T,
    M: Fn(T, T) -> T,
    A: Fn(T, T) -> T,
>(
    ops: &TensorOps<S, R, W, M, A>,
    absorbed_query: T,
    position_query: T,
    latent_cache: T,
    position_cache: T,
) -> (scores: T)
    requires
        callable::<T, S, R, W, M, A>(ops),
        mla_scorable(ops, absorbed_query, position_query, latent_cache, position_cache),
    ensures
        exists|content: T, position: T|
            scored(ops, absorbed_query, latent_cache, content) && scored(
                ops,
                position_query,
                position_cache,
                position,
            ) && #[trigger] call_ensures(ops.add, (content, position), scores),
{
    let q: [usize; 4] = (ops.shape)(&absorbed_query);
    let qp: [usize; 4] = (ops.shape)(&position_query);
    let c: [usize; 4] = (ops.shape)(&latent_cache);
    let kp: [usize; 4] = (ops.shape)(&position_cache);
    proof {
        assert(shaped(ops, absorbed_query, q));
        assert(shaped(ops, position_query, qp));
        assert(shaped(ops, latent_cache, c));
        assert(shaped(ops, position_cache, kp));
    }
    let content = gqa_scores(ops, absorbed_query, latent_cache);
    let position = gqa_scores(ops, position_query, position_cache);
    (ops.add)(content, position)
}

/// Every shape that may be reported of these tensors allows attending to compressed history.
pub open spec fn mla_weighable<T, S: Fn(&T) -> [usize; 4], R, W, M, A>(
    ops: &TensorOps<S, R, W, M, A>,
    probabilities: T,
    latent_cache: T,
    value_projection: T,
) -> bool {
    forall|p: [usize; 4], c: [usize; 4], w: [usize; 4]| #[trigger]
        shaped(ops, probabilities, p) && #[trigger] shaped(ops, latent_cache, c)
            && #[trigger] shaped(ops, value_projection, w) ==> mla_value_fault(p@, c@, w@) is None
}

/// Attend to compressed history before expanding the current output rows.
///
/// Probabilities [B,H,S,T], latent cache [B,1,T,R], value projection
/// [1,H,R,Dv] -> output [B,H,S,Dv]. No [B,H,T,Dv] historical values are formed.
/// Accumulation policy comes from `ops`; an adapter may supply F32 matmul/casts.
/// Floating-point operation order differs from full expansion and needs model
/// accuracy validation before enabling this path by default.
pub fn mla_value_product<
    T,
    S: Fn(&T) -> [usize; 4],
    R: Fn(T, [usize; 4]) -> T,
    W: Fn(T, usize, usize) -> T,
    M: Fn(T, T) -> T,
    A: Fn(T, T) -> T,
>(
    ops: &TensorOps<S, R, W, M, A>,
    probabilities: T,
    latent_cache: T,
    value_projection: T,
) -> (output: T)
    requires
        callable::<T, S, R, W, M, A>(ops),
        mla_weighable(ops, probabilities, latent_cache, value_projection),
    ensures
        exists|context: T|
            weighed(ops, probabilities, latent_cache, context) && #[trigger] call_ensures(
                ops.matmul,
                (context, value_projection),
                output,
            ),
{
    let p: [usize; 4] = (ops.shape)(&probabilities);
    let c: [usize; 4] = (ops.shape)(&latent_cache);
    let w: [usize; 4] = (ops.shape)(&value_projection);
    proof {
        assert(shaped(ops, probabilities, p));
        assert(shaped(ops, latent_cache, c));
        assert(shaped(ops, value_projection, w));
    }
    let context = gqa_value_product(ops, probabilities, latent_cache);
    (ops.matmul)(context, value_projection)
}

/// Operations that report the shape of a tensor consistently, and give a reshaped tensor the shape
/// that was asked for.
pub open spec fn tells_shapes<
    T,
    S: Fn(&T) -> [usize; 4],
    R: Fn(T, [usize; 4]) -> T,
    W,
    M,
    A,
>(ops: &TensorOps<S, R, W, M, A>) -> bool {
    &&& forall|t: T, a: [usize; 4], b: [usize; 4]| #[trigger]
        shaped(ops, t, a) && #[trigger] shaped(ops, t, b) ==> a@ == b@
    &&& forall|t: T, to: [usize; 4], after: T, a: [usize; 4]| #[trigger]
        call_ensures(ops.reshape, (t, to), after) && #[trigger] shaped(ops, after, a) ==> a@ == to@
}

/// Scores have one row per query head and position and one column per key.
pub proof fn law_scores_have_score_shape<
    T,
    S: Fn(&T) -> [usize; 4],
    R: Fn(T, [usize; 4]) -> T,
    W: Fn(T, usize, usize) -> T,
    M: Fn(T, T) -> T,
    A,
>(
    ops: &TensorOps<S, R, W, M, A>,
    query: T,
    key: T,
    scores: T,
    q: [usize; 4],
    k: [usize; 4],
    shape: [usize; 4],
)
    requires
        tells_shapes::<T, S, R, W, M, A>(ops),
        scored(ops, query, key, scores),
        shaped(ops, query, q),
        shaped(ops, key, k),
        shaped(ops, scores, shape),
    ensures
        shape@ == score_shape(q@, k@),
{
    let steps = choose|steps: ScoreSteps<T>| #[trigger] scored_by(ops, query, key, scores, steps);
    assert(shaped(ops, query, steps.query_shape));
    assert(shaped(ops, key, steps.key_shape));
    if steps.product_shape@ == steps.score_shape@ {
        assert(shaped(ops, steps.product, steps.product_shape));
    } else {
        assert(call_ensures(ops.reshape, (steps.product, steps.score_shape), scores));
    }
}

/// A weighed value has one row per query head and position and the width of the value.
pub proof fn law_output_has_output_shape<
    T,
    S: Fn(&T) -> [usize; 4],
    R: Fn(T, [usize; 4]) -> T,
    W: Fn(T, usize, usize) -> T,
    M: Fn(T, T) -> T,
    A,
>(
    ops: &TensorOps<S, R, W, M, A>,
    probabilities: T,
    value: T,
    output: T,
    p: [usize; 4],
    v: [usize; 4],
    shape: [usize; 4],
)
    requires
        tells_shapes::<T, S, R, W, M, A>(ops),
        weighed(ops, probabilities, value, output),
        shaped(ops, probabilities, p),
        shaped(ops, value, v),
        shaped(ops, output, shape),
    ensures
        shape@ == output_shape(p@, v@),
{
    let (steps, product) = choose|steps: ValueSteps<T>, product: T|
        #[trigger] folded_for(ops, probabilities, value, steps) && #[trigger] call_ensures(
            ops.matmul,
            (steps.folded, value),
            product,
        ) && unfolded_from(ops, steps, product, output);
    assert(shaped(ops, probabilities, steps.probability_shape));
    assert(shaped(ops, value, steps.value_shape));
    let product_shape = choose|product_shape: [usize; 4]| #[trigger]
        shaped(ops, product, product_shape) && refolded(
            ops,
            product,
            product_shape,
            steps.output_shape,
            output,
        );
    if product_shape@ == steps.output_shape@ {
        assert(shaped(ops, product, product_shape));
    } else {
        assert(call_ensures(ops.reshape, (product, steps.output_shape), output));
    }
}

} // verus!
