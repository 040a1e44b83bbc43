//! Logits and probabilities as the bit patterns of binary floating-point numbers.
//!
//! Ordering such numbers and telling infinities and NaN apart takes no arithmetic: both are read
//! off the bits.

use crate::generation::GenerationError;
use crate::text::{decimal, push_number, text, with_numbers};
use vstd::prelude::*;

verus! {

/// The bits of positive infinity in binary32.
pub const INFINITY_32: u32 = 0x7F80_0000;

/// The bits of negative infinity in binary32.
pub const NEG_INFINITY_32: u32 = 0xFF80_0000;

/// The bits of positive infinity in binary64.
pub const INFINITY_64: u64 = 0x7FF0_0000_0000_0000;

/// The bits of one in binary64.
pub const ONE_64: u64 = 0x3FF0_0000_0000_0000;

/// A number that compares with others as the binary32 value does, signed zeros being equal.
pub open spec fn order_32(bits: u32) -> int {
    if bits < 0x8000_0000 {
        bits as int
    } else {
        0x8000_0000 - bits
    }
}

/// The bits are those of a NaN.
pub open spec fn nan_32(bits: u32) -> bool {
    order_32(bits) > 0x7F80_0000 || order_32(bits) < -0x7F80_0000
}

/// As `order_32`, for binary64.
pub open spec fn order_64(bits: u64) -> int {
    if bits < 0x8000_0000_0000_0000 {
        bits as int
    } else {
        0x8000_0000_0000_0000 - bits
    }
}

/// As `nan_32`, for binary64.
pub open spec fn nan_64(bits: u64) -> bool {
    order_64(bits) > 0x7FF0_0000_0000_0000 || order_64(bits) < -0x7FF0_0000_0000_0000
}

/// `left < right` as binary64 values: false where either is NaN.
pub open spec fn less_64(left: u64, right: u64) -> bool {
    !nan_64(left) && !nan_64(right) && order_64(left) < order_64(right)
}

/// `left <= right` as binary64 values: false where either is NaN.
pub open spec fn at_most_64(left: u64, right: u64) -> bool {
    !nan_64(left) && !nan_64(right) && order_64(left) <= order_64(right)
}

/// Compute `order_32`.
pub fn rank_32(bits: u32) -> (rank: i64)
    ensures
        rank == order_32(bits),
        -0x8000_0000 < rank < 0x8000_0000,
{
    if bits < 0x8000_0000 {
        bits as i64
    } else {
        0x8000_0000 - bits as i64
    }
}

/// Compute `nan_32`.
pub fn is_nan_32(bits: u32) -> (nan: bool)
    ensures
        nan == nan_32(bits),
{
    let rank: i64 = rank_32(bits);
    rank > 0x7F80_0000 || rank < -0x7F80_0000
}

/// Compute `order_64`.
fn rank_64(bits: u64) -> (rank: i128)
    ensures
        rank == order_64(bits),
{
    if bits < 0x8000_0000_0000_0000 {
        bits as i128
    } else {
        0x8000_0000_0000_0000 - bits as i128
    }
}

/// Compute `less_64`.
pub fn is_less_64(left: u64, right: u64) -> (less: bool)
    ensures
        less == less_64(left, right),
{
    let a: i128 = rank_64(left);
    let b: i128 = rank_64(right);
    let limit: i128 = 0x7FF0_0000_0000_0000;
    a <= limit && a >= -limit && b <= limit && b >= -limit && a < b
}

/// Compute `at_most_64`.
pub fn is_at_most_64(left: u64, right: u64) -> (ordered: bool)
    ensures
        ordered == at_most_64(left, right),
{
    let a: i128 = rank_64(left);
    let b: i128 = rank_64(right);
    let limit: i128 = 0x7FF0_0000_0000_0000;
    a <= limit && a >= -limit && b <= limit && b >= -limit && a <= b
}

/// Logit `i` is the first of the greatest ones, NaN left aside.
pub open spec fn first_maximum(logits: Seq<u32>, i: int) -> bool {
    &&& 0 <= i < logits.len()
    &&& !nan_32(logits[i])
    &&& forall|j: int|
        0 <= j < logits.len() && !nan_32(#[trigger] logits[j]) ==> order_32(logits[j]) <= order_32(
            logits[i],
        )
    &&& forall|j: int|
        0 <= j < i && !nan_32(#[trigger] logits[j]) ==> order_32(logits[j]) < order_32(logits[i])
}

/// Every logit is NaN.
pub open spec fn all_nan(logits: Seq<u32>) -> bool {
    forall|j: int| 0 <= j < logits.len() ==> nan_32(#[trigger] logits[j])
}

/// There is only one first maximum.
pub proof fn lemma_first_maximum_unique(logits: Seq<u32>, a: int, b: int)
    requires
        first_maximum(logits, a),
        first_maximum(logits, b),
    ensures
        a == b,
{
}

/// The index of the first greatest logit, NaN left aside.
pub fn maximum_index(logits: &[u32]) -> (found: Option<usize>)
    ensures
        match found {
            Some(index) => first_maximum(logits@, index as int),
            None => all_nan(logits@),
        },
{
    let mut best: Option<usize> = None;
    let mut best_rank: i64 = 0;
    let mut i: usize = 0;
    while i < logits.len()
        invariant
            i <= logits@.len(),
            match best {
                Some(index) => index < i && first_maximum(logits@.take(i as int), index as int)
                    && best_rank == order_32(logits@[index as int]),
                None => all_nan(logits@.take(i as int)),
            },
        decreases logits@.len() - i,
    {
        let ghost before = logits@.take(i as int);
        let ghost after = logits@.take(i + 1);
        let bits: u32 = logits[i];
        proof {
            assert(after =~= before.push(bits));
            assert(after[i as int] == bits);
            assert forall|j: int| 0 <= j < i implies after[j] == #[trigger] before[j] by {}
        }
        if !is_nan_32(bits) {
            let rank: i64 = rank_32(bits);
            let better = match best {
                Some(_) => rank > best_rank,
                None => true,
            };
            if better {
                best = Some(i);
                best_rank = rank;
                proof {
                    assert forall|j: int|
                        0 <= j < after.len() && !nan_32(#[trigger] after[j]) implies order_32(
                        after[j],
                    ) <= order_32(after[i as int]) by {
                        if j < i {
                            assert(after[j] == before[j]);
                        }
                    }
                    assert forall|j: int|
                        0 <= j < i && !nan_32(#[trigger] after[j]) implies order_32(after[j])
                        < order_32(after[i as int]) by {
                        assert(after[j] == before[j]);
                    }
                    assert(first_maximum(after, i as int));
                }
            } else {
                proof {
                    let index = best->0 as int;
                    assert(after[index] == before[index]);
                    assert forall|j: int|
                        0 <= j < after.len() && !nan_32(#[trigger] after[j]) implies order_32(
                        after[j],
                    ) <= order_32(after[index]) by {
                        if j < i {
                            assert(after[j] == before[j]);
                        }
                    }
                    assert(first_maximum(after, index));
                }
            }
        } else {
            proof {
                match best {
                    Some(found) => {
                        let index = found as int;
                        assert(after[index] == before[index]);
                        assert forall|j: int|
                            0 <= j < after.len() && !nan_32(#[trigger] after[j]) implies order_32(
                            after[j],
                        ) <= order_32(after[index]) by {
                            if j < i {
                                assert(after[j] == before[j]);
                            }
                        }
                        assert(first_maximum(after, index));
                    },
                    None => {
                        assert forall|j: int| 0 <= j < after.len() implies nan_32(
                            #[trigger] after[j],
                        ) by {
                            if j < i {
                                assert(after[j] == before[j]);
                            }
                        }
                    },
                }
            }
        }
        i += 1;
    }
    assert(logits@.take(i as int) =~= logits@);
    best
}

/// The logits of a forward pass: `batch` rows of `sequence` positions, one value per vocabulary
/// entry, in row-major order.
#[derive(Debug)]
pub struct LogitBlock {
    batch: usize,
    sequence: usize,
    vocabulary: usize,
    values: Vec<u32>,
}

/// A block, over mathematical sequences.
#[verifier::ext_equal]
pub struct LogitBlockModel {
    pub batch: usize,
    pub sequence: usize,
    pub vocabulary: usize,
    pub values: Seq<u32>,
}

impl View for LogitBlock {
    type V = LogitBlockModel;

    closed spec fn view(&self) -> LogitBlockModel {
        LogitBlockModel {
            batch: self.batch,
            sequence: self.sequence,
            vocabulary: self.vocabulary,
            values: self.values@,
        }
    }
}

impl LogitBlockModel {
    /// There is one value for each vocabulary entry at each position.
    pub open spec fn full(self) -> bool {
        self.values.len() == self.batch * self.sequence * self.vocabulary
    }

    /// The logits at the last position of the last row.
    pub open spec fn last_row(self) -> Seq<u32> {
        self.values.subrange(self.values.len() - self.vocabulary, self.values.len() as int)
    }

    /// The logits at position `i`, positions of all rows counted through.
    pub open spec fn row(self, i: int) -> Seq<u32> {
        self.values.subrange(i * self.vocabulary, (i + 1) * self.vocabulary)
    }
}

impl LogitBlock {
    #[verifier::type_invariant]
    closed spec fn inv(&self) -> bool {
        self@.full()
    }

    /// A block of the given shape; none where the number of values does not fit the shape.
    pub fn new(batch: usize, sequence: usize, vocabulary: usize, values: Vec<u32>) -> (block: Option<
        LogitBlock,
    >)
        ensures
            block is Some <==> values@.len() == batch * sequence * vocabulary,
            block matches Some(block) ==> block@ == (LogitBlockModel {
                batch,
                sequence,
                vocabulary,
                values: values@,
            }),
    {
        let available: usize = values.len();
        let fits = if vocabulary == 0 || sequence == 0 || batch == 0 {
            proof {
                assert(batch * sequence * vocabulary == 0) by (nonlinear_arith)
                    requires
                        batch == 0 || sequence == 0 || vocabulary == 0,
                ;
            }
            available == 0
        } else {
            match batch.checked_mul(sequence) {
                Some(rows) => match rows.checked_mul(vocabulary) {
                    Some(count) => count == available,
                    None => false,
                },
                None => {
                    proof {
                        assert(batch * sequence * vocabulary >= batch * sequence)
                            by (nonlinear_arith)
                            requires
                                vocabulary >= 1,
                                batch >= 0,
                                sequence >= 0,
                        ;
                    }
                    false
                },
            }
        };
        if fits {
            Some(LogitBlock { batch, sequence, vocabulary, values })
        } else {
            None
        }
    }

    pub fn batch(&self) -> (batch: usize)
        ensures
            batch == self@.batch,
    {
        self.batch
    }

    pub fn sequence(&self) -> (sequence: usize)
        ensures
            sequence == self@.sequence,
    {
        self.sequence
    }

    pub fn vocabulary(&self) -> (vocabulary: usize)
        ensures
            vocabulary == self@.vocabulary,
    {
        self.vocabulary
    }

    /// Whether the block has exactly this shape.
    pub fn has_shape(&self, batch: usize, sequence: usize, vocabulary: usize) -> (same: bool)
        ensures
            same == (self@.batch == batch && self@.sequence == sequence && self@.vocabulary
                == vocabulary),
            same ==> self@.values.len() == batch * sequence * vocabulary,
    {
        proof {
            use_type_invariant(self);
        }
        self.batch == batch && self.sequence == sequence && self.vocabulary == vocabulary
    }

    /// All values, row by row.
    pub fn values(&self) -> (values: &Vec<u32>)
        ensures
            values@ == self@.values,
            self@.full(),
    {
        proof {
            use_type_invariant(self);
        }
        &self.values
    }

    /// A copy of the logits at the last position.
    pub fn copy_last_row(&self) -> (row: Vec<u32>)
        requires
            self@.batch == 1,
            self@.sequence > 0,
        ensures
            row@ == self@.last_row(),
            row@.len() == self@.vocabulary,
    {
        proof {
            use_type_invariant(self);
            let s = self.sequence as int;
            let v = self.vocabulary as int;
            assert(1 * s * v >= v) by (nonlinear_arith)
                requires
                    s >= 1,
                    v >= 0,
            ;
        }
        copy_range(&self.values, self.values.len() - self.vocabulary, self.values.len())
    }
}

/// A copy of part of a list.
pub fn copy_range(values: &[u32], from: usize, to: usize) -> (part: Vec<u32>)
    requires
        from <= to <= values@.len(),
    ensures
        part@ == values@.subrange(from as int, to as int),
{
    let mut part: Vec<u32> = Vec::with_capacity(to - from);
    let mut i: usize = from;
    while i < to
        invariant
            from <= i <= to <= values@.len(),
            part@ == values@.subrange(from as int, i as int),
        decreases to - i,
    {
        part.push(values[i]);
        i += 1;
        assert(part@ =~= values@.subrange(from as int, i as int));
    }
    part
}

/// The shape message of a block that holds no single next-token row.
pub open spec fn shape_message(block: LogitBlockModel) -> Seq<char> {
    "expected non-empty batch-one logits, got ["@ + decimal(block.batch as nat) + ", "@ + decimal(
        block.sequence as nat,
    ) + ", "@ + decimal(block.vocabulary as nat) + "]"@
}

/// The shape message of a block.
pub fn shape_text(logits: &LogitBlock) -> (message: String)
    ensures
        message@ == shape_message(logits@),
{
    let mut message = with_numbers(
        "expected non-empty batch-one logits, got [",
        logits.batch() as u64,
        ", ",
        logits.sequence() as u64,
        ", ",
    );
    push_number(&mut message, logits.vocabulary() as u64);
    message.append("]");
    message
}

/// A block can answer for the next token of a single request.
pub open spec fn single_row(block: LogitBlockModel) -> bool {
    block.batch == 1 && block.sequence > 0 && block.vocabulary > 0
}

/// The outcome of choosing the exact maximum logit at the last position of a block.
pub open spec fn greedy_outcome(block: LogitBlockModel, result: Result<i32, GenerationError>) -> bool {
    if !single_row(block) {
        result matches Err(error) && error.0@ == shape_message(block)
    } else if all_nan(block.last_row()) {
        result matches Err(error) && error.0@ == "all vocabulary logits are NaN"@
    } else {
        exists|i: int| #[trigger]
            first_maximum(block.last_row(), i) && if i <= i32::MAX {
                result == Ok::<i32, GenerationError>(i as i32)
            } else {
                result matches Err(error) && error.0@
                    == "vocabulary index does not fit an i32 token id"@
            }
    }
}

/// Choose the exact maximum logit at the last position; the first one where several are equal, NaN
/// left aside.
pub fn greedy_token(logits: &LogitBlock) -> (result: Result<i32, GenerationError>)
    ensures
        greedy_outcome(logits@, result),
{
    if logits.batch() != 1 || logits.sequence() == 0 || logits.vocabulary() == 0 {
        return Err(GenerationError(shape_text(logits)));
    }
    let row = logits.copy_last_row();
    match maximum_index(&row) {
        Some(index) => {
            assert(!all_nan(row@)) by {
                assert(!nan_32(row@[index as int]));
            }
            assert(first_maximum(logits@.last_row(), index as int));
            if index <= i32::MAX as usize {
                Ok(index as i32)
            } else {
                Err(GenerationError(text("vocabulary index does not fit an i32 token id")))
            }
        },
        None => Err(GenerationError(text("all vocabulary logits are NaN"))),
    }
}

/// Choosing the maximum has exactly one outcome.
pub proof fn law_greedy_is_deterministic(
    block: LogitBlockModel,
    a: Result<i32, GenerationError>,
    b: Result<i32, GenerationError>,
)
    requires
        greedy_outcome(block, a),
        greedy_outcome(block, b),
    ensures
        a is Ok <==> b is Ok,
        a is Ok ==> a == b,
        a is Err ==> (a->Err_0).0@ == (b->Err_0).0@,
{
    if single_row(block) && !all_nan(block.last_row()) {
        let i = choose|i: int| #[trigger]
            first_maximum(block.last_row(), i) && if i <= i32::MAX {
                a == Ok::<i32, GenerationError>(i as i32)
            } else {
                a matches Err(error) && error.0@ == "vocabulary index does not fit an i32 token id"@
            };
        let j = choose|j: int| #[trigger]
            first_maximum(block.last_row(), j) && if j <= i32::MAX {
                b == Ok::<i32, GenerationError>(j as i32)
            } else {
                b matches Err(error) && error.0@ == "vocabulary index does not fit an i32 token id"@
            };
        lemma_first_maximum_unique(block.last_row(), i, j);
    }
}

/// Numbers compare by sign and magnitude: of two numbers without a sign the one with more bits is
/// the greater, of two with a sign the one with fewer, and one without a sign is greater than one
/// with a sign unless both are zero. Magnitudes above that of infinity are no numbers, and compare
/// with nothing.
pub proof fn law_numbers_compare_by_sign_and_magnitude(a: u32, b: u32, x: u64, y: u64)
    ensures
        ({
            let minus_a = a >= 0x8000_0000;
            let minus_b = b >= 0x8000_0000;
            let size_a = a % 0x8000_0000;
            let size_b = b % 0x8000_0000;
            &&& order_32(a) < order_32(b) <==> if minus_a && minus_b {
                size_a > size_b
            } else if minus_a {
                size_a > 0 || size_b > 0
            } else {
                !minus_b && size_a < size_b
            }
            &&& nan_32(a) <==> size_a > 0x7F80_0000
        }),
        ({
            let minus_x = x >= 0x8000_0000_0000_0000;
            let minus_y = y >= 0x8000_0000_0000_0000;
            let size_x = x % 0x8000_0000_0000_0000;
            let size_y = y % 0x8000_0000_0000_0000;
            let numbers = size_x <= 0x7FF0_0000_0000_0000 && size_y <= 0x7FF0_0000_0000_0000;
            let less = if minus_x && minus_y {
                size_x > size_y
            } else if minus_x {
                size_x > 0 || size_y > 0
            } else {
                !minus_y && size_x < size_y
            };
            let equal = x == y || (size_x == 0 && size_y == 0);
            &&& less_64(x, y) <==> numbers && less
            &&& at_most_64(x, y) <==> numbers && (less || equal)
        }),
{
}

/// Greedy choice takes the first token whose logit at the last position no other exceeds: what is
/// not a number counts for nothing.
pub proof fn law_greedy_takes_the_first_greatest(block: LogitBlockModel, token: i32, j: int)
    requires
        block.full(),
        greedy_outcome(block, Ok(token)),
        0 <= j < block.vocabulary,
    ensures
        block.batch == 1,
        0 <= token < block.vocabulary,
        ({
            let start = block.values.len() - block.vocabulary;
            let own = block.values[start + token];
            let other = block.values[start + j];
            let greater = if own < 0x8000_0000 {
                other < 0x8000_0000 && other > own
            } else if own == 0x8000_0000 {
                0 < other < 0x8000_0000
            } else {
                other < own
            };
            let as_great = greater || other == own || (other % 0x8000_0000 == 0 && own % 0x8000_0000
                == 0);
            &&& own % 0x8000_0000 <= 0x7F80_0000
            &&& other % 0x8000_0000 <= 0x7F80_0000 ==> !greater && (as_great ==> token <= j)
        }),
{
    let n = block.vocabulary as int;
    assert(block.values.len() >= n) by (nonlinear_arith)
        requires
            block.values.len() == block.batch * block.sequence * block.vocabulary,
            block.batch == 1,
            block.sequence > 0,
            n == block.vocabulary,
    ;
    let row = block.last_row();
    let start = block.values.len() - n;
    assert(row[j] == block.values[start + j]);
    assert(row[token as int] == block.values[start + token]);
}

} // verus!
