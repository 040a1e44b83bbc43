use half::{bf16, f16};
use rullm::gpu_inference::layout::{
    check_absorb, check_mla, check_mla_value, check_positive, check_pv, check_qk, GqaLayout,
};
use rullm::gpu_inference::{
    gqa_scores, gqa_value_product, gqa_value_product_with, mla_absorb_query, mla_scores,
    mla_value_product, TensorOps,
};

type Ops<T> = TensorOps<
    fn(&T) -> [usize; 4],
    fn(T, [usize; 4]) -> T,
    fn(T, usize, usize) -> T,
    fn(T, T) -> T,
    fn(T, T) -> T,
>;

#[derive(Debug)]
struct Shape([usize; 4]);

fn ops() -> Ops<Shape> {
    TensorOps {
        shape: |t| t.0,
        reshape: |t, d| {
            assert_eq!(t.0.iter().product::<usize>(), d.iter().product::<usize>());
            Shape(d)
        },
        swap_dims: |mut t, a, b| {
            t.0.swap(a, b);
            t
        },
        matmul: |a, b| {
            assert_eq!(a.0[3], b.0[2]);
            assert!(a.0[0] == b.0[0] || a.0[0] == 1 || b.0[0] == 1);
            assert_eq!(a.0[1], b.0[1], "no repeated head broadcast allowed");
            Shape([a.0[0].max(b.0[0]), a.0[1], a.0[2], b.0[3]])
        },
        add: |a, b| {
            assert_eq!(a.0, b.0);
            a
        },
    }
}

#[test]
fn grouped_attention_shapes() {
    for heads in [1, 2, 8] {
        for groups in [1, 2, 4] {
            let o = ops();
            let scores = gqa_scores(
                &o,
                Shape([2, heads * groups, 3, 16]),
                Shape([2, heads, 7, 16]),
            );
            assert_eq!(scores.0, [2, heads * groups, 3, 7]);
            let result = gqa_value_product(&o, scores, Shape([2, heads, 7, 24]));
            assert_eq!(result.0, [2, heads * groups, 3, 24]);
        }
    }
}

#[test]
fn mla_shapes_and_shared_cache() {
    let o = ops();
    let q = mla_absorb_query(&o, Shape([2, 8, 3, 16]), Shape([1, 8, 16, 32]));
    let scores = mla_scores(
        &o,
        q,
        Shape([2, 8, 3, 8]),
        Shape([2, 1, 65, 32]),
        Shape([2, 1, 65, 8]),
    );
    let output = mla_value_product(&o, scores, Shape([2, 1, 65, 32]), Shape([1, 8, 32, 24]));
    assert_eq!(output.0, [2, 8, 3, 24]);
}

#[test]
fn callback_error_is_not_replaced() {
    let result = gqa_value_product_with(
        &ops(),
        Shape([1, 8, 1, 5]),
        Shape([1, 2, 5, 7]),
        |_, _| Err("backend-error"),
    );
    assert_eq!(result.unwrap_err(), "backend-error");
}

fn assert_fault(fault: Option<String>, expected: &str) {
    let message = fault.unwrap();
    assert!(message.contains(expected), "{message}");
}

#[test]
fn invalid_head_ratio() {
    assert_fault(check_qk([1, 7, 1, 4], [1, 2, 5, 4]), "divide by KV");
}

#[test]
fn empty_cache_rejected() {
    assert_fault(check_qk([1, 8, 1, 4], [1, 2, 0, 4]), "positive");
}

#[test]
fn mismatched_key_feature() {
    assert_fault(check_qk([1, 8, 1, 4], [1, 2, 5, 8]), "feature dimensions");
}

#[test]
fn mismatched_batch() {
    assert_fault(check_qk([2, 8, 1, 4], [1, 2, 5, 4]), "batches must match");
}

#[test]
fn mismatched_value_length() {
    assert_fault(check_pv([1, 8, 1, 4], [1, 2, 5, 8]), "lengths must match");
}

#[test]
fn overflow_rejected() {
    assert_fault(check_qk([1, 8, usize::MAX, 4], [1, 2, 5, 4]), "element count overflow");
}

#[test]
fn expanded_mla_cache_rejected() {
    assert_fault(
        check_mla([1, 8, 1, 16], [1, 8, 1, 8], [1, 8, 5, 16], [1, 1, 5, 8]),
        "must remain shared",
    );
}

#[test]
fn invalid_mla_projection() {
    assert_fault(check_mla_value([1, 8, 1, 5], [1, 1, 5, 16], [1, 8, 32, 8]), "rank mismatch");
}

#[test]
fn well_formed_shapes_have_no_fault() {
    assert_eq!(check_positive([1, 2, 3, 4]), None);
    assert_eq!(check_qk([1, 8, 1, 4], [1, 2, 5, 4]), None);
    assert_eq!(check_pv([1, 8, 1, 5], [1, 2, 5, 8]), None);
    assert_eq!(check_absorb([2, 8, 3, 16], [1, 8, 16, 32]), None);
    assert_eq!(check_mla([2, 8, 3, 32], [2, 8, 3, 8], [2, 1, 65, 32], [2, 1, 65, 8]), None);
    assert_eq!(check_mla_value([2, 8, 3, 65], [2, 1, 65, 32], [1, 8, 32, 24]), None);
    assert_fault(check_absorb([2, 8, 3, 16], [2, 8, 16, 32]), "must be one");
}

#[test]
fn folding_puts_the_queries_of_a_group_behind_one_another() {
    let layout = GqaLayout::new([2, 6, 3, 16], [2, 2, 7, 16], [2, 2, 7, 24]);
    assert!(layout.grouped);
    assert_eq!(layout.query, [2, 2, 9, 16]);
    assert_eq!(layout.scores, [2, 6, 3, 7]);
    assert_eq!(layout.probabilities, [2, 2, 9, 7]);
    assert_eq!(layout.output, [2, 6, 3, 24]);
}

#[derive(Clone, Copy, Debug, PartialEq)]
enum Precision {
    Single,
    Half,
    Brain,
}

impl Precision {
    fn round(self, value: f32) -> f32 {
        match self {
            Precision::Single => value,
            Precision::Half => f16::from_f32(value).to_f32(),
            Precision::Brain => bf16::from_f32(value).to_f32(),
        }
    }
}

/// A dense tensor in row-major order.
#[derive(Clone, Debug)]
struct Dense {
    dims: [usize; 4],
    data: Vec<f32>,
    precision: Precision,
}

impl Dense {
    fn from_fn(dims: [usize; 4], precision: Precision, f: impl Fn([usize; 4]) -> f32) -> Self {
        let mut data = Vec::new();
        for a in 0..dims[0] {
            for b in 0..dims[1] {
                for c in 0..dims[2] {
                    for d in 0..dims[3] {
                        data.push(precision.round(f([a, b, c, d])));
                    }
                }
            }
        }
        Dense { dims, data, precision }
    }

    fn at(&self, index: [usize; 4]) -> f32 {
        // Leading axes of length one are spread.
        let a = if self.dims[0] == 1 { 0 } else { index[0] };
        let b = if self.dims[1] == 1 { 0 } else { index[1] };
        self.data[((a * self.dims[1] + b) * self.dims[2] + index[2]) * self.dims[3] + index[3]]
    }

    fn scaled(self, factor: f32) -> Self {
        Dense::from_fn(self.dims, self.precision, |index| self.at(index) * factor)
    }

    fn softmax(self) -> Self {
        Dense::from_fn(self.dims, self.precision, |[a, b, c, d]| {
            let row: Vec<f32> = (0..self.dims[3]).map(|k| self.at([a, b, c, k])).collect();
            let maximum = row.iter().copied().fold(f32::NEG_INFINITY, f32::max);
            let total: f32 = row.iter().map(|value| (value - maximum).exp()).sum();
            (row[d] - maximum).exp() / total
        })
    }
}

fn swap_dense(t: Dense, x: usize, y: usize) -> Dense {
    let mut dims = t.dims;
    dims.swap(x, y);
    Dense::from_fn(dims, t.precision, |mut index| {
        index.swap(x, y);
        t.at(index)
    })
}

fn matmul_dense(x: Dense, y: Dense) -> Dense {
    assert_eq!(x.dims[3], y.dims[2]);
    let dims = [x.dims[0].max(y.dims[0]), x.dims[1].max(y.dims[1]), x.dims[2], y.dims[3]];
    Dense::from_fn(dims, x.precision, |[a, b, c, d]| {
        (0..x.dims[3]).map(|k| x.at([a, b, c, k]) * y.at([a, b, k, d])).sum()
    })
}

fn dense_ops() -> Ops<Dense> {
    TensorOps {
        shape: |t| t.dims,
        reshape: |t, dims| {
            assert_eq!(t.dims.iter().product::<usize>(), dims.iter().product::<usize>());
            Dense { dims, ..t }
        },
        swap_dims: swap_dense,
        matmul: matmul_dense,
        add: |x, y| {
            assert_eq!(x.dims, y.dims);
            Dense::from_fn(x.dims, x.precision, |index| x.at(index) + y.at(index))
        },
    }
}

fn sample(shape: [usize; 4], seed: usize, transposed: bool, precision: Precision) -> Dense {
    let [batch, heads, length, dim] = shape;
    let physical = if transposed { [batch, length, heads, dim] } else { shape };
    let count = batch * heads * length * dim;
    let values: Vec<f32> = (0..count)
        .map(|i| (((i * (seed * 2 + 1) + seed) % 67) as f32 - 33.0) / 64.0)
        .map(|value| precision.round(value))
        .collect();
    let tensor = Dense { dims: physical, data: values, precision };
    if transposed { swap_dense(tensor, 1, 2) } else { tensor }
}

fn repeat_heads(t: Dense, groups: usize) -> Dense {
    let dims = [t.dims[0], t.dims[1] * groups, t.dims[2], t.dims[3]];
    Dense::from_fn(dims, t.precision, |[a, b, c, d]| {
        t.data[((a * t.dims[1] + b / groups) * t.dims[2] + c) * t.dims[3] + d]
    })
}

fn close(actual: Dense, expected: Dense, tolerance: f32) {
    assert_eq!(actual.dims, expected.dims);
    assert_eq!(actual.precision, expected.precision);
    assert_eq!(actual.data.len(), expected.data.len());
    for (index, (a, b)) in actual.data.into_iter().zip(expected.data).enumerate() {
        assert!(a.is_finite() && b.is_finite(), "nonfinite result at {index}");
        assert!(
            (a - b).abs() <= tolerance + tolerance * b.abs(),
            "element {index}: actual={a}, expected={b}, tolerance={tolerance}"
        );
    }
}

#[test]
fn grouped_query_and_value_products_match_existing_repeat_heads() {
    // Independent head values also detect an incorrect interleaved head mapping.
    for precision in [Precision::Single, Precision::Half, Precision::Brain] {
        let tolerance = match precision {
            Precision::Single => 2e-5,
            _ => 0.04,
        };
        for (batch, kv_heads, groups, sequence, length) in [
            (1, 2, 1, 1, 17),
            (1, 2, 4, 1, 33),
            (2, 2, 3, 5, 9),
            (1, 1, 8, 7, 7),
            (2, 3, 2, 3, 31),
        ] {
            for transposed in [false, true] {
                let heads = kv_heads * groups;
                let query = sample([batch, heads, sequence, 16], 3, transposed, precision);
                let key = sample([batch, kv_heads, length, 16], 5, transposed, precision);
                let value = sample([batch, kv_heads, length, 16], 11, transposed, precision);
                let ops = dense_ops();
                let expected_scores = matmul_dense(
                    query.clone(),
                    swap_dense(repeat_heads(key.clone(), groups), 2, 3),
                )
                .scaled(0.25);
                let actual_scores = gqa_scores(&ops, query, key).scaled(0.25);
                close(actual_scores.clone(), expected_scores.clone(), tolerance);

                // The softmax is deliberately kept over the original final axis.
                let expected_probs = expected_scores.softmax();
                let actual_probs = actual_scores.softmax();
                let expected = matmul_dense(expected_probs, repeat_heads(value.clone(), groups));
                let actual = gqa_value_product(&ops, actual_probs, value);
                close(actual, expected, tolerance);
            }
        }
    }
}

#[test]
fn compressed_mla_matches_expanded_history_f32() {
    let ops = dense_ops();
    let single = Precision::Single;
    for (batch, heads, sequence, length) in [(1, 4, 1, 17), (2, 3, 5, 11)] {
        for transposed in [false, true] {
            let q = sample([batch, heads, sequence, 8], 3, transposed, single);
            let qp = sample([batch, heads, sequence, 4], 5, transposed, single);
            let c = sample([batch, 1, length, 12], 7, transposed, single);
            let kp = sample([batch, 1, length, 4], 11, transposed, single);
            let wk = sample([1, heads, 8, 12], 13, false, single);
            let wv = sample([1, heads, 12, 6], 17, false, single);
            let expanded_key = matmul_dense(c.clone(), swap_dense(wk.clone(), 2, 3));
            let expanded_value = matmul_dense(c.clone(), wv.clone());
            let content = matmul_dense(q.clone(), swap_dense(expanded_key, 2, 3));
            let position = matmul_dense(qp.clone(), swap_dense(kp.clone(), 2, 3));
            let expected_scores = (ops.add)(content, position).scaled(0.31);
            let absorbed = mla_absorb_query(&ops, q, wk);
            let actual_scores = mla_scores(&ops, absorbed, qp, c.clone(), kp).scaled(0.31);
            close(actual_scores.clone(), expected_scores.clone(), 2e-4);
            let expected = matmul_dense(expected_scores.softmax(), expanded_value);
            let actual = mla_value_product(&ops, actual_scores.softmax(), c, wv);
            close(actual, expected, 2e-4);
        }
    }
}
