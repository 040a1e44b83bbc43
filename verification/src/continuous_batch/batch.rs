//! Batches as a device sees them, and the limits that shape them.

use crate::generation::copy_tokens;
use crate::paged_kv::{KvPageId, KvReservationId, PagedKvError, RequestId};
use crate::text::text;
use vstd::prelude::*;

verus! {

#[derive(Debug, Clone, Copy, PartialEq, Eq, Structural)]
pub struct ContinuousBatchConfig {
    pub max_active_sequences: usize,
    pub max_batch_tokens: usize,
}

/// What a failed scheduler operation reports.
#[derive(Debug, Clone, PartialEq, Eq)]
pub struct ContinuousBatchError(pub String);

impl ContinuousBatchError {
    /// The message.
    pub fn to_string(&self) -> (message: String)
        ensures
            message@ == self.0@,
    {
        self.0.clone()
    }
}

impl From<PagedKvError> for ContinuousBatchError {
    fn from(value: PagedKvError) -> (error: Self) {
        ContinuousBatchError(value.0)
    }
}

impl vstd::std_specs::convert::FromSpecImpl<PagedKvError> for ContinuousBatchError {
    open spec fn obeys_from_spec() -> bool {
        true
    }

    open spec fn from_spec(value: PagedKvError) -> Self {
        ContinuousBatchError(value.0)
    }
}

impl ContinuousBatchConfig {
    /// Both limits are positive.
    pub open spec fn valid(self) -> bool {
        self.max_active_sequences > 0 && self.max_batch_tokens > 0
    }

    pub fn validate(self) -> (result: Result<(), ContinuousBatchError>)
        ensures
            result is Ok <==> self.valid(),
            result matches Err(error) ==> error.0@ == "continuous batch limits must be non-zero"@,
    {
        if self.max_active_sequences == 0 || self.max_batch_tokens == 0 {
            return Err(ContinuousBatchError(text("continuous batch limits must be non-zero")));
        }
        Ok(())
    }
}

/// Trade throughput-oriented overcommit for a conservative progress guarantee.
#[derive(Debug, Clone, Copy, PartialEq, Eq, Structural)]
pub enum KvAdmissionPolicy {
    /// Allocate only when needed.
    /// Overcommitted requests can exhaust the pool and require cancellation.
    OnDemand,
    /// Admit only when every active request can fit its maximum cached length.
    /// This reserves a metadata budget, not physical pages in advance.
    ReserveSequenceCapacity,
}

impl Default for KvAdmissionPolicy {
    fn default() -> (policy: Self)
        ensures
            policy == KvAdmissionPolicy::OnDemand,
    {
        KvAdmissionPolicy::OnDemand
    }
}

#[derive(Debug, Clone, Copy, PartialEq, Eq, Structural)]
pub struct ContinuousBatchOptions {
    /// Maximum queued, not active or completed, requests. None is unbounded.
    pub max_pending_requests: Option<usize>,
    pub kv_admission: KvAdmissionPolicy,
}

impl Default for ContinuousBatchOptions {
    fn default() -> (options: Self)
        ensures
            options.max_pending_requests is None,
            options.kv_admission == KvAdmissionPolicy::OnDemand,
    {
        ContinuousBatchOptions {
            max_pending_requests: None,
            kv_admission: KvAdmissionPolicy::OnDemand,
        }
    }
}

impl ContinuousBatchOptions {
    /// A queue limit is positive.
    pub open spec fn valid(self) -> bool {
        self.max_pending_requests != Some(0usize)
    }

    pub fn validate(self) -> (result: Result<(), ContinuousBatchError>)
        ensures
            result is Ok <==> self.valid(),
            result matches Err(error) ==> error.0@
                == "max_pending_requests must be positive when set"@,
    {
        match self.max_pending_requests {
            Some(limit) => {
                if limit == 0 {
                    return Err(
                        ContinuousBatchError(
                            text("max_pending_requests must be positive when set"),
                        ),
                    );
                }
                Ok(())
            },
            None => Ok(()),
        }
    }
}

#[derive(Debug, Clone, Copy, PartialEq, Eq, Structural)]
pub enum ScheduledBatchKind {
    Prefill,
    Decode,
}

#[derive(Debug, PartialEq, Eq)]
pub struct ScheduledSequence {
    pub request_id: RequestId,
    pub token_ids: Vec<i32>,
    pub start_position: usize,
    pub context_length: usize,
    pub block_table: Vec<KvPageId>,
    pub reservation_id: KvReservationId,
}

/// A scheduled row, over mathematical sequences.
#[verifier::ext_equal]
pub struct RowModel {
    pub request_id: RequestId,
    pub token_ids: Seq<i32>,
    pub start_position: usize,
    pub context_length: usize,
    pub block_table: Seq<KvPageId>,
    pub reservation_id: KvReservationId,
}

impl View for ScheduledSequence {
    type V = RowModel;

    open spec fn view(&self) -> RowModel {
        RowModel {
            request_id: self.request_id,
            token_ids: self.token_ids@,
            start_position: self.start_position,
            context_length: self.context_length,
            block_table: self.block_table@,
            reservation_id: self.reservation_id,
        }
    }
}

impl Clone for ScheduledSequence {
    fn clone(&self) -> (copy: Self)
        ensures
            copy@ == self@,
    {
        let mut block_table: Vec<KvPageId> = Vec::with_capacity(self.block_table.len());
        let mut i: usize = 0;
        while i < self.block_table.len()
            invariant
                i <= self.block_table@.len(),
                block_table@ == self.block_table@.take(i as int),
            decreases self.block_table@.len() - i,
        {
            block_table.push(self.block_table[i]);
            i += 1;
            assert(block_table@ =~= self.block_table@.take(i as int));
        }
        assert(block_table@ =~= self.block_table@);
        ScheduledSequence {
            request_id: self.request_id,
            token_ids: copy_tokens(&self.token_ids),
            start_position: self.start_position,
            context_length: self.context_length,
            block_table,
            reservation_id: self.reservation_id,
        }
    }
}

#[derive(Debug, PartialEq, Eq)]
pub struct ScheduledBatch {
    pub id: u64,
    pub kind: ScheduledBatchKind,
    pub sequences: Vec<ScheduledSequence>,
}

/// A scheduled batch, over mathematical sequences.
#[verifier::ext_equal]
pub struct BatchModel {
    pub id: u64,
    pub kind: ScheduledBatchKind,
    pub rows: Seq<RowModel>,
}

/// The rows of a list of scheduled sequences.
pub open spec fn row_models(sequences: Seq<ScheduledSequence>) -> Seq<RowModel> {
    Seq::new(sequences.len(), |i: int| sequences[i]@)
}

impl View for ScheduledBatch {
    type V = BatchModel;

    open spec fn view(&self) -> BatchModel {
        BatchModel { id: self.id, kind: self.kind, rows: row_models(self.sequences@) }
    }
}

impl Clone for ScheduledBatch {
    fn clone(&self) -> (copy: Self)
        ensures
            copy@ == self@,
    {
        let mut sequences: Vec<ScheduledSequence> = Vec::with_capacity(self.sequences.len());
        let mut i: usize = 0;
        while i < self.sequences.len()
            invariant
                i <= self.sequences@.len(),
                sequences@.len() == i,
                forall|j: int| 0 <= j < i ==> (#[trigger] sequences@[j])@ == self.sequences@[j]@,
            decreases self.sequences@.len() - i,
        {
            sequences.push(self.sequences[i].clone());
            i += 1;
        }
        assert(row_models(sequences@) =~= row_models(self.sequences@));
        ScheduledBatch { id: self.id, kind: self.kind, sequences }
    }
}

/// All tokens of some rows, one row after the other.
pub open spec fn joined_tokens(rows: Seq<RowModel>) -> Seq<i32>
    decreases rows.len(),
{
    if rows.len() == 0 {
        Seq::empty()
    } else {
        joined_tokens(rows.drop_last()) + rows.last().token_ids
    }
}

/// The causal lengths of the first `n` tokens of a row: how much of the sequence each one sees.
pub open spec fn causal_lengths(start: usize, n: nat) -> Seq<u32> {
    Seq::new(n, |i: int| (start + i + 1) as u32)
}

/// The causal lengths of all tokens, row by row.
pub open spec fn joined_lengths(rows: Seq<RowModel>) -> Seq<u32>
    decreases rows.len(),
{
    if rows.len() == 0 {
        Seq::empty()
    } else {
        joined_lengths(rows.drop_last()) + causal_lengths(
            rows.last().start_position,
            rows.last().token_ids.len(),
        )
    }
}

/// Why the causal lengths of one row cannot be listed: the first one that is too large.
pub open spec fn row_length_error(row: RowModel) -> Option<Seq<char>> {
    let first = if row.start_position < u32::MAX {
        u32::MAX + 1
    } else {
        row.start_position + 1
    };
    if row.token_ids.len() == 0 || row.start_position + row.token_ids.len() <= u32::MAX {
        None
    } else if first <= usize::MAX {
        Some("context length exceeds DeepGEMM u32 ABI"@)
    } else {
        Some("context length overflow"@)
    }
}

/// Why the causal lengths of some rows cannot be listed.
pub open spec fn lengths_error(rows: Seq<RowModel>) -> Option<Seq<char>>
    decreases rows.len(),
{
    if rows.len() == 0 {
        None
    } else {
        match lengths_error(rows.drop_last()) {
            Some(message) => Some(message),
            None => row_length_error(rows.last()),
        }
    }
}

proof fn lemma_lengths_prefix(rows: Seq<RowModel>, n: int)
    requires
        0 <= n <= rows.len(),
        lengths_error(rows.take(n)) is Some,
    ensures
        lengths_error(rows) == lengths_error(rows.take(n)),
    decreases rows.len(),
{
    if n < rows.len() {
        assert(rows.drop_last().take(n) =~= rows.take(n));
        lemma_lengths_prefix(rows.drop_last(), n);
    } else {
        assert(rows.take(n) =~= rows);
    }
}

/// The length of the longest page table.
pub open spec fn longest_table(rows: Seq<RowModel>) -> nat
    decreases rows.len(),
{
    if rows.len() == 0 {
        0
    } else {
        let rest = longest_table(rows.drop_last());
        if rows.last().block_table.len() > rest {
            rows.last().block_table.len()
        } else {
            rest
        }
    }
}

proof fn lemma_longest_table(rows: Seq<RowModel>, i: int)
    requires
        0 <= i < rows.len(),
    ensures
        rows[i].block_table.len() <= longest_table(rows),
    decreases rows.len(),
{
    if i < rows.len() - 1 {
        lemma_longest_table(rows.drop_last(), i);
        assert(rows.drop_last()[i] == rows[i]);
    }
}

impl ScheduledBatch {
    pub fn batch_size(&self) -> (size: usize)
        ensures
            size == self@.rows.len(),
    {
        self.sequences.len()
    }

    /// The number of tokens per row; zero for a batch without rows.
    pub fn next_n(&self) -> (n: usize)
        ensures
            n == (if self@.rows.len() == 0 {
                0
            } else {
                self@.rows[0].token_ids.len()
            }),
    {
        if self.sequences.len() == 0 {
            0
        } else {
            self.sequences[0].token_ids.len()
        }
    }

    /// Row-major `[batch, next_n]` input expected by the Llama embedding path.
    pub fn token_matrix(&self) -> (tokens: Vec<i32>)
        ensures
            tokens@ == joined_tokens(self@.rows),
    {
        let mut tokens: Vec<i32> = Vec::new();
        let ghost rows = self@.rows;
        let mut row: usize = 0;
        assert(rows.take(0) =~= Seq::empty());
        while row < self.sequences.len()
            invariant
                rows == self@.rows,
                row <= rows.len(),
                rows.len() == self.sequences@.len(),
                tokens@ == joined_tokens(rows.take(row as int)),
            decreases rows.len() - row,
        {
            let ghost before = tokens@;
            let ids = &self.sequences[row].token_ids;
            let mut i: usize = 0;
            assert(tokens@ =~= before + ids@.take(0));
            while i < ids.len()
                invariant
                    i <= ids@.len(),
                    tokens@ == before + ids@.take(i as int),
                decreases ids@.len() - i,
            {
                tokens.push(ids[i]);
                i += 1;
                assert(tokens@ =~= before + ids@.take(i as int));
            }
            proof {
                assert(ids@.take(i as int) =~= ids@);
                assert(rows.take(row + 1).drop_last() =~= rows.take(row as int));
                assert(rows.take(row + 1).last() == rows[row as int]);
            }
            row += 1;
        }
        assert(rows.take(row as int) =~= rows);
        tokens
    }

    /// One causal length per query token, in the exact order required by
    /// `Fp8Fp4PagedAttention::context_lens`.
    pub fn context_lengths(&self) -> (result: Result<Vec<u32>, ContinuousBatchError>)
        ensures
            match (result, lengths_error(self@.rows)) {
                (Ok(lengths), None) => lengths@ == joined_lengths(self@.rows),
                (Err(error), Some(message)) => error.0@ == message,
                _ => false,
            },
    {
        let mut lengths: Vec<u32> = Vec::new();
        let ghost rows = self@.rows;
        let mut row: usize = 0;
        assert(rows.take(0) =~= Seq::empty());
        while row < self.sequences.len()
            invariant
                rows == self@.rows,
                row <= rows.len(),
                rows.len() == self.sequences@.len(),
                lengths_error(rows.take(row as int)) is None,
                lengths@ == joined_lengths(rows.take(row as int)),
            decreases rows.len() - row,
        {
            let ghost before = lengths@;
            let sequence = &self.sequences[row];
            let start: usize = sequence.start_position;
            let count: usize = sequence.token_ids.len();
            let mut offset: usize = 0;
            proof {
                assert(rows[row as int] == sequence@);
                assert(rows.take(row + 1).drop_last() =~= rows.take(row as int));
                assert(rows.take(row + 1).last() == rows[row as int]);
                if row_length_error(sequence@) is Some {
                    lemma_lengths_prefix(rows, row + 1);
                }
            }
            assert(lengths@ =~= before + causal_lengths(start, 0));
            while offset < count
                invariant
                    rows == self@.rows,
                    count == sequence@.token_ids.len(),
                    start == sequence@.start_position,
                    offset <= count,
                    row_length_error(sequence@) is Some ==> lengths_error(rows)
                        == row_length_error(sequence@),
                    offset > 0 ==> start + offset <= u32::MAX,
                    lengths@ == before + causal_lengths(start, offset as nat),
                decreases count - offset,
            {
                let length: usize = match start.checked_add(offset) {
                    Some(position) => match position.checked_add(1) {
                        Some(length) => length,
                        None => {
                            return Err(ContinuousBatchError(text("context length overflow")));
                        },
                    },
                    None => {
                        return Err(ContinuousBatchError(text("context length overflow")));
                    },
                };
                if length > u32::MAX as usize {
                    return Err(
                        ContinuousBatchError(text("context length exceeds DeepGEMM u32 ABI")),
                    );
                }
                lengths.push(length as u32);
                offset += 1;
                assert(lengths@ =~= before + causal_lengths(start, offset as nat));
            }
            row += 1;
        }
        assert(rows.take(row as int) =~= rows);
        Ok(lengths)
    }

    /// Return the padded row-major physical page table and its row stride.
    pub fn flattened_block_table(&self) -> (result: Result<
        (Vec<u32>, usize),
        ContinuousBatchError,
    >)
        requires
            self@.rows.len() * longest_table(self@.rows) <= usize::MAX,
        ensures
            match result {
                Ok((table, stride)) => {
                    &&& self@.rows.len() == 0 || stride > 0
                    &&& stride == longest_table(self@.rows)
                    &&& table@.len() == self@.rows.len() * stride
                    &&& forall|row: int, column: int|
                        0 <= row < self@.rows.len() && 0 <= column < stride
                            ==> table@[#[trigger] table_cell(row, column, stride as int)] == (
                        if column < self@.rows[row].block_table.len() {
                            self@.rows[row].block_table[column].0
                        } else {
                            0
                        })
                },
                Err(error) => self@.rows.len() > 0 && longest_table(self@.rows) == 0 && error.0@
                    == "scheduled sequence has no physical KV page"@,
            },
    {
        let ghost rows = self@.rows;
        let count: usize = self.sequences.len();
        let mut stride: usize = 0;
        let mut i: usize = 0;
        assert(rows.take(0) =~= Seq::empty());
        while i < count
            invariant
                rows == self@.rows,
                count == rows.len(),
                count == self.sequences@.len(),
                i <= count,
                stride == longest_table(rows.take(i as int)),
            decreases count - i,
        {
            proof {
                assert(rows.take(i + 1).drop_last() =~= rows.take(i as int));
                assert(rows.take(i + 1).last() == rows[i as int]);
            }
            let length: usize = self.sequences[i].block_table.len();
            if length > stride {
                stride = length;
            }
            i += 1;
        }
        assert(rows.take(i as int) =~= rows);
        if stride == 0 && count > 0 {
            return Err(
                ContinuousBatchError(text("scheduled sequence has no physical KV page")),
            );
        }
        let mut table: Vec<u32> = Vec::with_capacity(count * stride);
        let mut row: usize = 0;
        while row < count
            invariant
                rows == self@.rows,
                count == rows.len(),
                count == self.sequences@.len(),
                stride == longest_table(rows),
                row <= count,
                table@.len() == row * stride,
                forall|r: int, c: int|
                    0 <= r < row && 0 <= c < stride ==> table@[#[trigger] table_cell(
                        r,
                        c,
                        stride as int,
                    )] == (if c < rows[r].block_table.len() {
                        rows[r].block_table[c].0
                    } else {
                        0
                    }),
            decreases count - row,
        {
            let pages = &self.sequences[row].block_table;
            let ghost before = table@;
            proof {
                lemma_longest_table(rows, row as int);
                assert(pages@ == rows[row as int].block_table);
            }
            let mut column: usize = 0;
            while column < stride
                invariant
                    pages@ == rows[row as int].block_table,
                    pages@.len() <= stride,
                    column <= stride,
                    before.len() == row * stride,
                    table@.len() == before.len() + column,
                    forall|k: int| 0 <= k < before.len() ==> table@[k] == before[k],
                    forall|c: int|
                        0 <= c < column ==> #[trigger] table@[before.len() + c] == (if c
                            < pages@.len() {
                            pages@[c].0
                        } else {
                            0
                        }),
                decreases stride - column,
            {
                if column < pages.len() {
                    table.push(pages[column].0);
                } else {
                    table.push(0);
                }
                column += 1;
            }
            proof {
                assert((row + 1) * stride == row * stride + stride) by (nonlinear_arith);
                assert forall|r: int, c: int| 0 <= r < row + 1 && 0 <= c < stride implies table@[
                #[trigger] table_cell(r, c, stride as int)] == (if c < rows[r].block_table.len() {
                    rows[r].block_table[c].0
                } else {
                    0
                }) by {
                    if r < row {
                        assert(0 <= r * stride + c < row * stride) by (nonlinear_arith)
                            requires
                                0 <= r < row,
                                0 <= c < stride,
                        ;
                        assert(table@[table_cell(r, c, stride as int)] == before[table_cell(
                            r,
                            c,
                            stride as int,
                        )]);
                    } else {
                        assert(table@[before.len() + c] == (if c < pages@.len() {
                            pages@[c].0
                        } else {
                            0
                        }));
                    }
                }
            }
            row += 1;
        }
        Ok((table, stride))
    }
}

/// The place of a cell in a row-major table.
pub open spec fn table_cell(row: int, column: int, stride: int) -> int {
    row * stride + column
}

} // verus!
