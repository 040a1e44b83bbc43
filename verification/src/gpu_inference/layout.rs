//! The shapes of grouped-query attention: what fits together, and how rows are folded.

use crate::text::text;
use vstd::prelude::*;

verus! {

/// The number of elements of a four-dimensional tensor.
pub open spec fn elements(shape: Seq<usize>) -> int {
    shape[0] * shape[1] * shape[2] * shape[3]
}

/// Every dimension is positive and the number of elements can be counted.
pub open spec fn positive(shape: Seq<usize>) -> bool {
    &&& shape[0] > 0 && shape[1] > 0 && shape[2] > 0 && shape[3] > 0
    &&& elements(shape) <= usize::MAX
}

/// [batch, heads, sequence, width] with the query heads of a group folded into the rows of their
/// KV head: [batch, KV heads, rows, width].
pub open spec fn folded_shape(shape: Seq<usize>, kv_heads: usize) -> Seq<usize> {
    seq![
        shape[0],
        kv_heads,
        (shape[2] * (shape[1] as int / kv_heads as int)) as usize,
        shape[3],
    ]
}

/// [batch, query heads, query length, key length].
pub open spec fn score_shape(query: Seq<usize>, key: Seq<usize>) -> Seq<usize> {
    seq![query[0], query[1], query[2], key[2]]
}

/// [batch, query heads, query length, value width].
pub open spec fn output_shape(probabilities: Seq<usize>, value: Seq<usize>) -> Seq<usize> {
    seq![probabilities[0], probabilities[1], probabilities[2], value[3]]
}

/// A query and a key that can be scored against one another.
pub open spec fn qk_valid(query: Seq<usize>, key: Seq<usize>) -> bool {
    qk_fault(query, key) is None
}

/// Why a query and a key cannot be scored against one another.
pub open spec fn qk_fault(query: Seq<usize>, key: Seq<usize>) -> Option<Seq<char>> {
    if shape_fault(query) is Some {
        shape_fault(query)
    } else if shape_fault(key) is Some {
        shape_fault(key)
    } else if query[0] != key[0] {
        Some("query/key batches must match"@)
    } else if query[3] != key[3] {
        Some("query/key feature dimensions must match"@)
    } else if query[1] as int % key[1] as int != 0 {
        Some("query heads must divide by KV heads"@)
    } else {
        shape_fault(score_shape(query, key))
    }
}

/// Probabilities and a value that can be weighed with them.
pub open spec fn pv_valid(probabilities: Seq<usize>, value: Seq<usize>) -> bool {
    pv_fault(probabilities, value) is None
}

/// Why a value cannot be weighed with probabilities.
pub open spec fn pv_fault(probabilities: Seq<usize>, value: Seq<usize>) -> Option<Seq<char>> {
    if shape_fault(probabilities) is Some {
        shape_fault(probabilities)
    } else if shape_fault(value) is Some {
        shape_fault(value)
    } else if probabilities[0] != value[0] {
        Some("probability/value batches must match"@)
    } else if probabilities[3] != value[2] {
        Some("probability/value lengths must match"@)
    } else if probabilities[1] as int % value[1] as int != 0 {
        Some("query heads must divide by KV heads"@)
    } else {
        shape_fault(output_shape(probabilities, value))
    }
}

/// What is wrong with a shape.
pub open spec fn shape_fault(shape: Seq<usize>) -> Option<Seq<char>> {
    if shape[0] == 0 || shape[1] == 0 || shape[2] == 0 || shape[3] == 0 {
        Some("attention dimensions must be positive"@)
    } else if elements(shape) > usize::MAX {
        Some("attention element count overflow"@)
    } else {
        None
    }
}

/// Whether two shapes are the same.
pub fn same_shape(left: &[usize; 4], right: &[usize; 4]) -> (same: bool)
    ensures
        same == (left@ == right@),
{
    let same = left[0] == right[0] && left[1] == right[1] && left[2] == right[2] && left[3]
        == right[3];
    assert(same ==> left@ =~= right@);
    same
}

/// What is wrong with a shape, as far as its element count goes.
pub fn check_positive(shape: [usize; 4]) -> (fault: Option<String>)
    ensures
        match (fault, shape_fault(shape@)) {
            (Some(message), Some(expected)) => message@ == expected,
            (None, None) => true,
            _ => false,
        },
{
    if shape[0] == 0 || shape[1] == 0 || shape[2] == 0 || shape[3] == 0 {
        return Some(text("attention dimensions must be positive"));
    }
    let a: usize = shape[0];
    let b: usize = shape[1];
    let c: usize = shape[2];
    let d: usize = shape[3];
    proof {
        assert(a * b * c * d >= a * b * c) by (nonlinear_arith)
            requires
                d >= 1,
                a * b * c >= 0,
        ;
        assert(a * b * c >= a * b) by (nonlinear_arith)
            requires
                c >= 1,
                a * b >= 0,
        ;
    }
    match a.checked_mul(b) {
        Some(ab) => match ab.checked_mul(c) {
            Some(abc) => match abc.checked_mul(d) {
                Some(_) => None,
                None => Some(text("attention element count overflow")),
            },
            None => Some(text("attention element count overflow")),
        },
        None => Some(text("attention element count overflow")),
    }
}

/// Why a query and a key cannot be scored against one another.
pub fn check_qk(query: [usize; 4], key: [usize; 4]) -> (fault: Option<String>)
    ensures
        match (fault, qk_fault(query@, key@)) {
            (Some(message), Some(expected)) => message@ == expected,
            (None, None) => true,
            _ => false,
        },
{
    if let Some(fault) = check_positive(query) {
        return Some(fault);
    }
    if let Some(fault) = check_positive(key) {
        return Some(fault);
    }
    if query[0] != key[0] {
        return Some(text("query/key batches must match"));
    }
    if query[3] != key[3] {
        return Some(text("query/key feature dimensions must match"));
    }
    if query[1] % key[1] != 0 {
        return Some(text("query heads must divide by KV heads"));
    }
    let scores: [usize; 4] = [query[0], query[1], query[2], key[2]];
    assert(scores@ =~= score_shape(query@, key@));
    check_positive(scores)
}

/// Why a value cannot be weighed with probabilities.
pub fn check_pv(probabilities: [usize; 4], value: [usize; 4]) -> (fault: Option<String>)
    ensures
        match (fault, pv_fault(probabilities@, value@)) {
            (Some(message), Some(expected)) => message@ == expected,
            (None, None) => true,
            _ => false,
        },
{
    if let Some(fault) = check_positive(probabilities) {
        return Some(fault);
    }
    if let Some(fault) = check_positive(value) {
        return Some(fault);
    }
    if probabilities[0] != value[0] {
        return Some(text("probability/value batches must match"));
    }
    if probabilities[3] != value[2] {
        return Some(text("probability/value lengths must match"));
    }
    if probabilities[1] % value[1] != 0 {
        return Some(text("query heads must divide by KV heads"));
    }
    let output: [usize; 4] = [probabilities[0], probabilities[1], probabilities[2], value[3]];
    assert(output@ =~= output_shape(probabilities@, value@));
    check_positive(output)
}

/// The rows that fold a group of query heads can be counted.
proof fn lemma_rows_fit(shape: Seq<usize>, kv_heads: usize)
    requires
        positive(shape),
        kv_heads > 0,
    ensures
        0 <= shape[2] * (shape[1] as int / kv_heads as int) <= usize::MAX,
{
    let b = shape[0] as int;
    let h = shape[1] as int;
    let s = shape[2] as int;
    let w = shape[3] as int;
    let k = kv_heads as int;
    assert(0 <= h / k <= h) by (nonlinear_arith)
        requires
            h >= 0,
            k >= 1,
    ;
    assert(0 <= s * (h / k) <= s * h) by (nonlinear_arith)
        requires
            0 <= h / k <= h,
            s >= 0,
    ;
    assert(s * h <= b * h * s * w) by (nonlinear_arith)
        requires
            b >= 1,
            w >= 1,
            s >= 0,
            h >= 0,
    ;
}

/// The rows of a KV head that its group of query heads is folded into.
pub fn fold_rows(sequence: usize, groups: usize) -> (rows: usize)
    requires
        sequence * groups <= usize::MAX,
    ensures
        rows == sequence * groups,
{
    sequence * groups
}

/// The folded query and the scores.
pub fn qk_layout(query: [usize; 4], key: [usize; 4]) -> (layout: ([usize; 4], [usize; 4]))
    requires
        qk_valid(query@, key@),
    ensures
        layout.0@ == folded_shape(query@, key@[1]),
        layout.1@ == score_shape(query@, key@),
{
    proof {
        lemma_rows_fit(query@, key@[1]);
    }
    let rows: usize = fold_rows(query[2], query[1] / key[1]);
    let folded: [usize; 4] = [query[0], key[1], rows, query[3]];
    let scores: [usize; 4] = [query[0], query[1], query[2], key[2]];
    assert(folded@ =~= folded_shape(query@, key@[1]));
    assert(scores@ =~= score_shape(query@, key@));
    (folded, scores)
}

/// The folded probabilities and the output.
pub fn pv_layout(probabilities: [usize; 4], value: [usize; 4]) -> (layout: ([usize; 4], [usize; 4]))
    requires
        pv_valid(probabilities@, value@),
    ensures
        layout.0@ == folded_shape(probabilities@, value@[1]),
        layout.1@ == output_shape(probabilities@, value@),
{
    proof {
        lemma_rows_fit(probabilities@, value@[1]);
    }
    let rows: usize = fold_rows(probabilities[2], probabilities[1] / value[1]);
    let folded: [usize; 4] = [probabilities[0], value[1], rows, probabilities[3]];
    let output: [usize; 4] = [probabilities[0], probabilities[1], probabilities[2], value[3]];
    assert(folded@ =~= folded_shape(probabilities@, value@[1]));
    assert(output@ =~= output_shape(probabilities@, value@));
    (folded, output)
}

/// Layout metadata of one attention over all three inputs.
#[derive(Debug, Clone, Copy, PartialEq, Eq)]
pub struct GqaLayout {
    /// Whether more than one query head shares each KV head.
    pub grouped: bool,
    /// Folded query shape [batch, KV heads, grouped rows, key dimension].
    pub query: [usize; 4],
    /// Unfolded score shape [batch, query heads, query length, key length].
    pub scores: [usize; 4],
    /// Folded probability shape consumed by the value product.
    pub probabilities: [usize; 4],
    /// Unfolded output shape.
    pub output: [usize; 4],
}

impl GqaLayout {
    /// Derive the two no-repeat matrix products of inputs that fit together.
    pub fn new(query: [usize; 4], key: [usize; 4], value: [usize; 4]) -> (layout: Self)
        requires
            qk_valid(query@, key@),
            key@[1] == value@[1],
            pv_valid(score_shape(query@, key@), value@),
        ensures
            layout.grouped == (query@[1] != key@[1]),
            layout.query@ == folded_shape(query@, key@[1]),
            layout.scores@ == score_shape(query@, key@),
            layout.probabilities@ == folded_shape(score_shape(query@, key@), value@[1]),
            layout.output@ == output_shape(score_shape(query@, key@), value@),
    {
        let (folded_query, scores) = qk_layout(query, key);
        let (probabilities, output) = pv_layout(scores, value);
        GqaLayout { grouped: query[1] != key[1], query: folded_query, scores, probabilities, output }
    }
}

/// The place of an element of a four-dimensional tensor in row-major order.
pub open spec fn offset(shape: Seq<usize>, b: int, h: int, s: int, w: int) -> int {
    ((b * shape[1] + h) * shape[2] + s) * shape[3] + w
}

/// Folding moves no element: query head `h` of a group of `g` heads becomes block `h % g` of the
/// rows of KV head `h / g`, at the same place in row-major order. So a product with the KV heads
/// as they stand gives every query head the product with its own KV head, as if KV heads had been
/// repeated.
pub proof fn law_folding_keeps_places(
    shape: Seq<usize>,
    kv_heads: usize,
    b: int,
    h: int,
    s: int,
    w: int,
)
    requires
        positive(shape),
        kv_heads > 0,
        shape[1] as int % kv_heads as int == 0,
        0 <= b < shape[0],
        0 <= h < shape[1],
        0 <= s < shape[2],
        0 <= w < shape[3],
    ensures
        ({
            let g = shape[1] as int / kv_heads as int;
            let row = h % g * shape[2] + s;
            &&& g > 0
            &&& 0 <= h / g < kv_heads
            &&& 0 <= row < folded_shape(shape, kv_heads)[2]
            &&& offset(folded_shape(shape, kv_heads), b, h / g, row, w) == offset(
                shape,
                b,
                h,
                s,
                w,
            )
        }),
{
    let heads = shape[1] as int;
    let k = kv_heads as int;
    let n = shape[2] as int;
    let g = heads / k;
    lemma_rows_fit(shape, kv_heads);
    assert(heads == k * g) by (nonlinear_arith)
        requires
            heads % k == 0,
            g == heads / k,
            k > 0,
    ;
    assert(g > 0) by (nonlinear_arith)
        requires
            heads == k * g,
            heads > 0,
            k > 0,
    ;
    let q = h / g;
    let r = h % g;
    assert(h == g * q + r && 0 <= r < g) by (nonlinear_arith)
        requires
            q == h / g,
            r == h % g,
            g > 0,
    ;
    assert(0 <= q < k) by (nonlinear_arith)
        requires
            h == g * q + r,
            0 <= r < g,
            0 <= h < k * g,
            g > 0,
    ;
    let rows = n * g;
    let row = r * n + s;
    assert(0 <= row < rows) by (nonlinear_arith)
        requires
            row == r * n + s,
            rows == n * g,
            0 <= r < g,
            0 <= s < n,
    ;
    assert((b * k + q) * rows + row == (b * heads + h) * n + s) by (nonlinear_arith)
        requires
            rows == n * g,
            row == r * n + s,
            heads == k * g,
            h == g * q + r,
    ;
}

/// Folding keeps the number of elements, so a reshape to the folded shape and back is possible.
pub proof fn law_folding_keeps_elements(shape: Seq<usize>, kv_heads: usize)
    requires
        positive(shape),
        kv_heads > 0,
        shape[1] as int % kv_heads as int == 0,
    ensures
        elements(folded_shape(shape, kv_heads)) == elements(shape),
{
    let heads = shape[1] as int;
    let k = kv_heads as int;
    let n = shape[2] as int;
    let d = shape[3] as int;
    let b = shape[0] as int;
    let g = heads / k;
    lemma_rows_fit(shape, kv_heads);
    assert(heads == k * g) by (nonlinear_arith)
        requires
            heads % k == 0,
            g == heads / k,
            k > 0,
    ;
    assert(b * k * (n * g) * d == b * heads * n * d) by (nonlinear_arith)
        requires
            heads == k * g,
    ;
}

/// What is wrong with the absorption of a key expansion into queries.
pub open spec fn absorb_fault(query: Seq<usize>, projection: Seq<usize>) -> Option<Seq<char>> {
    if shape_fault(query) is Some {
        shape_fault(query)
    } else if shape_fault(projection) is Some {
        shape_fault(projection)
    } else if projection[0] != 1 {
        Some("MLA projection batch axis must be one"@)
    } else if projection[1] != query[1] {
        Some("MLA projection heads must match queries"@)
    } else if projection[2] != query[3] {
        Some("MLA key projection input dimension mismatch"@)
    } else {
        shape_fault(seq![query[0], query[1], query[2], projection[3]])
    }
}

/// What is wrong with scoring against compressed history.
pub open spec fn mla_fault(
    query: Seq<usize>,
    position_query: Seq<usize>,
    latent: Seq<usize>,
    position: Seq<usize>,
) -> Option<Seq<char>> {
    if shape_fault(query) is Some {
        shape_fault(query)
    } else if shape_fault(position_query) is Some {
        shape_fault(position_query)
    } else if shape_fault(latent) is Some {
        shape_fault(latent)
    } else if shape_fault(position) is Some {
        shape_fault(position)
    } else if query[0] != position_query[0] || query[1] != position_query[1] || query[2]
        != position_query[2] {
        Some("MLA query batch/head/sequence must match"@)
    } else if latent[1] != 1 {
        Some("MLA latent cache must remain shared across heads"@)
    } else if position[1] != 1 {
        Some("MLA position cache must remain shared across heads"@)
    } else if latent[2] != position[2] {
        Some("MLA cache lengths must match"@)
    } else if qk_fault(query, latent) is Some {
        qk_fault(query, latent)
    } else {
        qk_fault(position_query, position)
    }
}

/// What is wrong with attending to compressed history.
pub open spec fn mla_value_fault(
    probabilities: Seq<usize>,
    latent: Seq<usize>,
    projection: Seq<usize>,
) -> Option<Seq<char>> {
    if shape_fault(probabilities) is Some {
        shape_fault(probabilities)
    } else if shape_fault(latent) is Some {
        shape_fault(latent)
    } else if shape_fault(projection) is Some {
        shape_fault(projection)
    } else if latent[1] != 1 {
        Some("MLA latent cache must remain shared across heads"@)
    } else if pv_fault(probabilities, latent) is Some {
        pv_fault(probabilities, latent)
    } else if projection[0] != 1 {
        Some("MLA projection batch axis must be one"@)
    } else if projection[1] != probabilities[1] {
        Some("MLA value projection heads must match probabilities"@)
    } else if projection[2] != latent[3] {
        Some("MLA value projection rank mismatch"@)
    } else {
        shape_fault(seq![probabilities[0], probabilities[1], probabilities[2], projection[3]])
    }
}

/// What is wrong with the absorption of a key expansion into queries.
pub fn check_absorb(query: [usize; 4], projection: [usize; 4]) -> (fault: Option<String>)
    ensures
        match (fault, absorb_fault(query@, projection@)) {
            (Some(message), Some(expected)) => message@ == expected,
            (None, None) => true,
            _ => false,
        },
{
    if let Some(fault) = check_positive(query) {
        return Some(fault);
    }
    if let Some(fault) = check_positive(projection) {
        return Some(fault);
    }
    if projection[0] != 1 {
        return Some(text("MLA projection batch axis must be one"));
    }
    if projection[1] != query[1] {
        return Some(text("MLA projection heads must match queries"));
    }
    if projection[2] != query[3] {
        return Some(text("MLA key projection input dimension mismatch"));
    }
    let absorbed: [usize; 4] = [query[0], query[1], query[2], projection[3]];
    assert(absorbed@ =~= seq![query@[0], query@[1], query@[2], projection@[3]]);
    check_positive(absorbed)
}

/// What is wrong with scoring against compressed history.
pub fn check_mla(
    query: [usize; 4],
    position_query: [usize; 4],
    latent: [usize; 4],
    position: [usize; 4],
) -> (fault: Option<String>)
    ensures
        match (fault, mla_fault(query@, position_query@, latent@, position@)) {
            (Some(message), Some(expected)) => message@ == expected,
            (None, None) => true,
            _ => false,
        },
{
    if let Some(fault) = check_positive(query) {
        return Some(fault);
    }
    if let Some(fault) = check_positive(position_query) {
        return Some(fault);
    }
    if let Some(fault) = check_positive(latent) {
        return Some(fault);
    }
    if let Some(fault) = check_positive(position) {
        return Some(fault);
    }
    if query[0] != position_query[0] || query[1] != position_query[1] || query[2]
        != position_query[2] {
        return Some(text("MLA query batch/head/sequence must match"));
    }
    if latent[1] != 1 {
        return Some(text("MLA latent cache must remain shared across heads"));
    }
    if position[1] != 1 {
        return Some(text("MLA position cache must remain shared across heads"));
    }
    if latent[2] != position[2] {
        return Some(text("MLA cache lengths must match"));
    }
    if let Some(fault) = check_qk(query, latent) {
        return Some(fault);
    }
    check_qk(position_query, position)
}

/// What is wrong with attending to compressed history.
pub fn check_mla_value(
    probabilities: [usize; 4],
    latent: [usize; 4],
    projection: [usize; 4],
) -> (fault: Option<String>)
    ensures
        match (fault, mla_value_fault(probabilities@, latent@, projection@)) {
            (Some(message), Some(expected)) => message@ == expected,
            (None, None) => true,
            _ => false,
        },
{
    if let Some(fault) = check_positive(probabilities) {
        return Some(fault);
    }
    if let Some(fault) = check_positive(latent) {
        return Some(fault);
    }
    if let Some(fault) = check_positive(projection) {
        return Some(fault);
    }
    if latent[1] != 1 {
        return Some(text("MLA latent cache must remain shared across heads"));
    }
    if let Some(fault) = check_pv(probabilities, latent) {
        return Some(fault);
    }
    if projection[0] != 1 {
        return Some(text("MLA projection batch axis must be one"));
    }
    if projection[1] != probabilities[1] {
        return Some(text("MLA value projection heads must match probabilities"));
    }
    if projection[2] != latent[3] {
        return Some(text("MLA value projection rank mismatch"));
    }
    let output: [usize; 4] = [
        probabilities[0],
        probabilities[1],
        probabilities[2],
        projection[3],
    ];
    assert(output@ =~= seq![
        probabilities@[0],
        probabilities@[1],
        probabilities@[2],
        projection@[3],
    ]);
    check_positive(output)
}

/// Four positive dimensions, of no more elements than can be counted.
pub open spec fn countable(a: usize, b: usize, c: usize, d: usize) -> bool {
    a > 0 && b > 0 && c > 0 && d > 0 && a * b * c * d <= usize::MAX
}

/// The dimensions of a shape are countable.
pub open spec fn countable_shape(shape: Seq<usize>) -> bool {
    countable(shape[0], shape[1], shape[2], shape[3])
}

/// A query is scored against keys, and values are weighed with probabilities, if and only if all
/// shapes can be counted, the batches match, whole groups of query heads share a KV head, and what is
/// summed over has one length on both sides.
pub proof fn law_shapes_that_match_are_accepted(
    query: Seq<usize>,
    key: Seq<usize>,
    probabilities: Seq<usize>,
    value: Seq<usize>,
)
    ensures
        qk_fault(query, key) is None <==> {
            &&& countable_shape(query) && countable_shape(key)
            &&& query[0] == key[0]
            &&& query[3] == key[3]
            &&& query[1] as int % key[1] as int == 0
            &&& countable(query[0], query[1], query[2], key[2])
        },
        pv_fault(probabilities, value) is None <==> {
            &&& countable_shape(probabilities) && countable_shape(value)
            &&& probabilities[0] == value[0]
            &&& probabilities[3] == value[2]
            &&& probabilities[1] as int % value[1] as int == 0
            &&& countable(probabilities[0], probabilities[1], probabilities[2], value[3])
        },
{
}

/// Compressed attention takes shapes if and only if all of them can be counted, the projections have
/// one batch and the heads of what they are applied to, the caches are shared by all heads and as
/// long as one another, and what is summed over has one length on both sides.
pub proof fn law_compressed_shapes_that_match_are_accepted(
    query: Seq<usize>,
    projection: Seq<usize>,
    probabilities: Seq<usize>,
    latent: Seq<usize>,
)
    ensures
        absorb_fault(query, projection) is None <==> {
            &&& countable_shape(query) && countable_shape(projection)
            &&& projection[0] == 1
            &&& projection[1] == query[1]
            &&& projection[2] == query[3]
            &&& countable(query[0], query[1], query[2], projection[3])
        },
        mla_value_fault(probabilities, latent, projection) is None <==> {
            &&& countable_shape(probabilities) && countable_shape(latent) && countable_shape(
                projection,
            )
            &&& latent[1] == 1
            &&& probabilities[0] == latent[0]
            &&& probabilities[3] == latent[2]
            &&& countable(probabilities[0], probabilities[1], probabilities[2], latent[3])
            &&& projection[0] == 1
            &&& projection[1] == probabilities[1]
            &&& projection[2] == latent[3]
            &&& countable(probabilities[0], probabilities[1], probabilities[2], projection[3])
        },
{
}

/// A query is scored against compressed history if and only if its two parts have one batch, the
/// same heads and the same length, the two caches are shared by all heads and as long as one
/// another, and each part can be scored against its cache.
pub proof fn law_compressed_scores_that_match_are_accepted(
    query: Seq<usize>,
    position_query: Seq<usize>,
    latent: Seq<usize>,
    position: Seq<usize>,
)
    ensures
        mla_fault(query, position_query, latent, position) is None <==> {
            &&& countable_shape(query) && countable_shape(position_query)
            &&& countable_shape(latent) && countable_shape(position)
            &&& query[0] == position_query[0] == latent[0] == position[0]
            &&& query[1] == position_query[1]
            &&& query[2] == position_query[2]
            &&& latent[1] == 1 && position[1] == 1
            &&& latent[2] == position[2]
            &&& query[3] == latent[3]
            &&& position_query[3] == position[3]
            &&& countable(query[0], query[1], query[2], latent[2])
        },
{
}

} // verus!
