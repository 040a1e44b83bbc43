//! Choosing one token per row of a batch, with a random stream of its own for each sampled request.

use crate::continuous_batch::batch::{BatchModel, ContinuousBatchError, RowModel};
use crate::continuous_batch::model::{RequestModel, SchedulerModel};
use crate::continuous_batch::{submitted, ContinuousBatchScheduler};
use crate::generation::sampling::{
    config_error, fill_error, sampled, usable, SamplerModel, SamplingArithmetic,
    SamplingGenerationConfig, TokenSampler,
};
use crate::generation::{fresh_sampler, GreedyGenerationConfig};
use crate::logits::{
    all_nan, first_maximum, lemma_first_maximum_unique, maximum_index, nan_32,
};
use crate::paged_kv::RequestId;
use crate::rng::after_draw;
use crate::text::{decimal, text, with_number};
use vstd::prelude::*;
use vstd::slice::slice_subrange;

verus! {

/// Selection state is committed only together with the corresponding batch.
#[derive(Debug)]
pub struct BatchTokenSelection {
    pub batch_id: u64,
    pub tokens: Vec<i32>,
    pub samplers: Vec<(RequestId, TokenSampler)>,
}

/// The sampler states of a selection.
pub open spec fn sampler_states(samplers: Seq<(RequestId, TokenSampler)>) -> Seq<
    (RequestId, SamplerModel),
> {
    Seq::new(samplers.len(), |i: int| (samplers[i].0, samplers[i].1@))
}

/// The logits of row `i`.
pub open spec fn row_logits(logits: Seq<u32>, vocabulary: usize, i: int) -> Seq<u32> {
    logits.subrange(i * vocabulary, (i + 1) * vocabulary)
}

/// Why no token can be chosen for a row.
pub open spec fn row_error(request: RequestModel, row: Seq<u32>, i: int) -> Option<Seq<char>> {
    match request.sampler {
        Some(sampler) => match fill_error(sampler.config, row) {
            Some(message) => Some(
                "sampling batch row "@ + decimal(i as nat) + ": "@ + message,
            ),
            None => None,
        },
        None => if all_nan(row) {
            Some("all vocabulary logits are NaN for batch row "@ + decimal(i as nat) + ""@)
        } else if exists|t: int| #[trigger] first_maximum(row, t) && t > i32::MAX {
            Some("vocabulary index exceeds i32"@)
        } else {
            None
        },
    }
}

/// The first error among the first `n` rows.
pub open spec fn rows_error(
    m: SchedulerModel,
    rows: Seq<RowModel>,
    logits: Seq<u32>,
    vocabulary: usize,
    n: int,
) -> Option<Seq<char>>
    decreases n,
{
    if n <= 0 {
        None
    } else {
        match rows_error(m, rows, logits, vocabulary, n - 1) {
            Some(message) => Some(message),
            None => row_error(
                m.active[rows[n - 1].request_id.0],
                row_logits(logits, vocabulary, n - 1),
                n - 1,
            ),
        }
    }
}

proof fn lemma_rows_error(
    m: SchedulerModel,
    rows: Seq<RowModel>,
    logits: Seq<u32>,
    vocabulary: usize,
    n: int,
    all: int,
)
    requires
        0 <= n <= all,
        rows_error(m, rows, logits, vocabulary, n) is Some,
    ensures
        rows_error(m, rows, logits, vocabulary, all) == rows_error(m, rows, logits, vocabulary, n),
    decreases all,
{
    if n < all {
        lemma_rows_error(m, rows, logits, vocabulary, n, all - 1);
    }
}

/// Why tokens cannot be chosen for a batch.
pub open spec fn select_error(
    m: SchedulerModel,
    batch_id: u64,
    logits: Seq<u32>,
    vocabulary: usize,
) -> Option<Seq<char>> {
    let batch = m.in_flight->0;
    if m.in_flight is None || batch.id != batch_id {
        Some("batch "@ + decimal(batch_id as nat) + " is not in flight"@)
    } else if vocabulary == 0 || batch.rows.len() * vocabulary != logits.len() {
        Some("logit rows do not match the scheduled batch"@)
    } else {
        rows_error(m, batch.rows, logits, vocabulary, batch.rows.len() as int)
    }
}

/// `token` may be chosen for a row: the first greatest logit, or what the request's sampler draws.
pub open spec fn row_choice<A: SamplingArithmetic>(
    arithmetic: &A,
    request: RequestModel,
    row: Seq<u32>,
    token: i32,
) -> bool {
    match request.sampler {
        Some(sampler) => exists|slice: &[u32]|
            slice@ == row && #[trigger] sampled(arithmetic, sampler, slice, token),
        None => token >= 0 && first_maximum(row, token as int),
    }
}

/// The samplers of the first `n` rows after one draw each.
pub open spec fn advanced_samplers(m: SchedulerModel, rows: Seq<RowModel>, n: int) -> Seq<
    (RequestId, SamplerModel),
>
    decreases n,
{
    if n <= 0 {
        Seq::empty()
    } else {
        let before = advanced_samplers(m, rows, n - 1);
        let id = rows[n - 1].request_id;
        match m.active[id.0].sampler {
            Some(sampler) => before.push(
                (
                    id,
                    SamplerModel { config: sampler.config, state: after_draw(sampler.state) },
                ),
            ),
            None => before,
        }
    }
}

/// Some row of a batch belongs to a request with a sampler.
pub open spec fn has_sampled_row(m: SchedulerModel, batch: BatchModel) -> bool {
    exists|i: int|
        0 <= i < batch.rows.len() && m.active[(
        #[trigger] batch.rows[i]).request_id.0].sampler is Some
}

/// Choosing the tokens of a batch draws from some sampler.
pub open spec fn draws(m: SchedulerModel, batch_id: u64) -> bool {
    m.in_flight matches Some(batch) && batch.id == batch_id && has_sampled_row(m, batch)
}

/// A selection holds a token that may be chosen for each row of the batch in flight, and the
/// samplers of the rows after one draw each.
pub open spec fn selects<A: SamplingArithmetic>(
    arithmetic: &A,
    m: SchedulerModel,
    batch_id: u64,
    logits: Seq<u32>,
    vocabulary: usize,
    selection: BatchTokenSelection,
) -> bool {
    let rows = (m.in_flight->0).rows;
    &&& select_error(m, batch_id, logits, vocabulary) is None
    &&& selection.batch_id == batch_id
    &&& selection.tokens@.len() == rows.len()
    &&& forall|i: int|
        0 <= i < rows.len() ==> row_choice(
            arithmetic,
            m.active[rows[i].request_id.0],
            row_logits(logits, vocabulary, i),
            #[trigger] selection.tokens@[i],
        )
    &&& sampler_states(selection.samplers@) == advanced_samplers(m, rows, rows.len() as int)
}

/// A state with the samplers of a selection put in place, where their requests still run.
pub open spec fn with_samplers(
    m: SchedulerModel,
    samplers: Seq<(RequestId, SamplerModel)>,
) -> SchedulerModel
    decreases samplers.len(),
{
    if samplers.len() == 0 {
        m
    } else {
        let before = with_samplers(m, samplers.drop_last());
        let (id, state) = samplers.last();
        if before.active.contains_key(id.0) {
            SchedulerModel {
                active: before.active.insert(
                    id.0,
                    RequestModel { sampler: Some(state), ..before.active[id.0] },
                ),
                ..before
            }
        } else {
            before
        }
    }
}

/// Random streams do not bear on the invariant.
pub proof fn lemma_samplers_inv(m: SchedulerModel, samplers: Seq<(RequestId, SamplerModel)>)
    requires
        m.inv(),
    ensures
        with_samplers(m, samplers).inv(),
        with_samplers(m, samplers) == (SchedulerModel {
            active: with_samplers(m, samplers).active,
            ..m
        }),
        with_samplers(m, samplers).active.dom() == m.active.dom(),
    decreases samplers.len(),
{
    if samplers.len() > 0 {
        let before = with_samplers(m, samplers.drop_last());
        let after = with_samplers(m, samplers);
        lemma_samplers_inv(m, samplers.drop_last());
        let (id, state) = samplers.last();
        if before.active.contains_key(id.0) {
            assert(after.active.dom() =~= before.active.dom());
            assert forall|k: u64| #[trigger] after.active.contains_key(k) implies after.active_sound(
                k,
            ) by {
                assert(before.active.contains_key(k));
                assert(before.active_sound(k));
            }
            assert forall|i: int|
                #![trigger after.pending[i]]
                0 <= i < after.pending.len() implies after.pending_sound(i) by {
                assert(before.pending[i] == after.pending[i]);
                assert(before.pending_sound(i));
            }
            assert forall|k: u64| #[trigger] after.active.contains_key(k)
                <==> after.kv.sequences.contains_key(k) by {
                assert(before.active.contains_key(k) <==> before.kv.sequences.contains_key(k));
            }
            if let Some(batch) = after.in_flight {
                assert forall|i: int|
                    #![trigger batch.rows[i]]
                    0 <= i < batch.rows.len() implies after.row_sound(batch, i) by {
                    assert(before.row_sound(batch, i));
                }
            }
            crate::sums::lemma_sum_same(
                crate::continuous_batch::model::budget_weight(
                    before.active,
                    m.kv.config.block_size,
                ),
                crate::continuous_batch::model::budget_weight(after.active, m.kv.config.block_size),
                crate::sums::key_bound(),
            );
        }
    }
}

/// Choose the first greatest logit of a row.
fn greedy_token(row_values: &[u32], row: usize) -> (result: Result<i32, ContinuousBatchError>)
    ensures
        match result {
            Ok(token) => token >= 0 && first_maximum(row_values@, token as int),
            Err(error) => if all_nan(row_values@) {
                error.0@ == "all vocabulary logits are NaN for batch row "@ + decimal(row as nat)
                    + ""@
            } else {
                error.0@ == "vocabulary index exceeds i32"@ && exists|t: int| #[trigger]
                    first_maximum(row_values@, t) && t > i32::MAX
            },
        },
{
    match maximum_index(row_values) {
        Some(index) => {
            assert(!all_nan(row_values@)) by {
                assert(!nan_32(row_values@[index as int]));
            }
            if index <= i32::MAX as usize {
                Ok(index as i32)
            } else {
                Err(ContinuousBatchError(text("vocabulary index exceeds i32")))
            }
        },
        None => Err(
            ContinuousBatchError(
                with_number("all vocabulary logits are NaN for batch row ", row as u64, ""),
            ),
        ),
    }
}

impl ContinuousBatchScheduler {
    /// Submit a sampled request with its own RNG, independent of batch membership.
    pub fn submit_sampled(
        &mut self,
        prompt_token_ids: Vec<i32>,
        generation: SamplingGenerationConfig,
    ) -> (result: Result<RequestId, ContinuousBatchError>)
        requires
            old(self).wf(),
        ensures
            final(self).wf(),
            match config_error(generation.sampling) {
                Some(message) => final(self)@ == old(self)@ && (result matches Err(error)
                    && error.0@ == message),
                None => exists|sampler: SamplerModel| #[trigger]
                    fresh_sampler(generation.sampling, sampler) && submitted(
                        old(self)@,
                        prompt_token_ids@,
                        generation.max_new_tokens,
                        generation.eos_token_ids@,
                        Some(sampler),
                        result,
                        final(self)@,
                    ),
            },
    {
        let sampler = match TokenSampler::new(generation.sampling) {
            Ok(sampler) => sampler,
            Err(error) => {
                return Err(ContinuousBatchError(error.0));
            },
        };
        assert(fresh_sampler(generation.sampling, sampler@));
        self.submit_with_sampler(
            prompt_token_ids,
            GreedyGenerationConfig {
                max_new_tokens: generation.max_new_tokens,
                eos_token_ids: generation.eos_token_ids,
            },
            Some(sampler),
        )
    }

    /// Choose one token per row of the batch in flight, without changing anything: samplers draw
    /// from copies of their streams.
    pub fn select_batch_tokens<A: SamplingArithmetic>(
        &self,
        batch_id: u64,
        logits: &[u32],
        vocabulary: usize,
        arithmetic: &A,
    ) -> (result: Result<BatchTokenSelection, ContinuousBatchError>)
        requires
            self.wf(),
            draws(self@, batch_id) ==> usable(arithmetic),
        ensures
            match (result, select_error(self@, batch_id, logits@, vocabulary)) {
                (Ok(selection), None) => selects(
                    arithmetic,
                    self@,
                    batch_id,
                    logits@,
                    vocabulary,
                    selection,
                ),
                (Err(error), Some(message)) => error.0@ == message,
                _ => false,
            },
    {
        let ghost m = self@;
        let batch = match &self.in_flight {
            Some(batch) => if batch.id == batch_id {
                batch
            } else {
                return Err(
                    ContinuousBatchError(with_number("batch ", batch_id, " is not in flight")),
                );
            },
            None => {
                return Err(
                    ContinuousBatchError(with_number("batch ", batch_id, " is not in flight")),
                );
            },
        };
        let count: usize = batch.sequences.len();
        let ghost rows = batch@.rows;
        let total: usize = logits.len();
        let shaped = vocabulary != 0 && match count.checked_mul(vocabulary) {
            Some(expected) => expected == total,
            None => false,
        };
        if !shaped {
            return Err(
                ContinuousBatchError(text("logit rows do not match the scheduled batch")),
            );
        }
        let mut tokens: Vec<i32> = Vec::with_capacity(count);
        let mut samplers: Vec<(RequestId, TokenSampler)> = Vec::new();
        let mut row: usize = 0;
        assert(sampler_states(samplers@) =~= Seq::empty());
        while row < count
            invariant
                self.wf(),
                m == self@,
                draws(m, batch_id) ==> usable(arithmetic),
                m.in_flight == Some(batch@),
                rows == batch@.rows,
                batch@.id == batch_id,
                count == rows.len(),
                count == batch.sequences@.len(),
                vocabulary > 0,
                count * vocabulary == logits@.len(),
                total == logits@.len(),
                row <= count,
                rows_error(m, rows, logits@, vocabulary, row as int) is None,
                tokens@.len() == row,
                forall|i: int|
                    0 <= i < row ==> row_choice(
                        arithmetic,
                        m.active[rows[i].request_id.0],
                        row_logits(logits@, vocabulary, i),
                        #[trigger] tokens@[i],
                    ),
                sampler_states(samplers@) == advanced_samplers(m, rows, row as int),
            decreases count - row,
        {
            let sequence = &batch.sequences[row];
            proof {
                assert(rows[row as int] == sequence@);
                assert(m.row_sound(batch@, row as int)) by {
                    assert(batch@.rows[row as int] == sequence@);
                }
                assert(0 <= row * vocabulary <= (row + 1) * vocabulary <= count * vocabulary)
                    by (nonlinear_arith)
                    requires
                        row + 1 <= count,
                        vocabulary > 0,
                ;
                assert((row + 1) * vocabulary == row * vocabulary + vocabulary)
                    by (nonlinear_arith);
                let failure = row_error(
                    m.active[rows[row as int].request_id.0],
                    row_logits(logits@, vocabulary, row as int),
                    row as int,
                );
                if failure is Some {
                    lemma_rows_error(m, rows, logits@, vocabulary, row + 1, count as int);
                }
            }
            let from: usize = row * vocabulary;
            let values = slice_subrange(logits, from, from + vocabulary);
            let ghost slice = row_logits(logits@, vocabulary, row as int);
            assert(values@ == slice);
            let ghost states_before = samplers@;
            let ghost tokens_before = tokens@;
            match self.active.get(sequence.request_id.0) {
                Some(request) => match &request.sampler {
                    Some(sampler) => {
                        let mut next = sampler.clone();
                        match next.sample(arithmetic, values) {
                            Ok(token) => {
                                tokens.push(token);
                            },
                            Err(error) => {
                                let mut message = with_number(
                                    "sampling batch row ",
                                    row as u64,
                                    ": ",
                                );
                                message.append(error.0.as_str());
                                return Err(ContinuousBatchError(message));
                            },
                        }
                        // Batch previews retain RNG checkpoints, not one O(vocabulary)
                        // buffer per request. Streaming single requests still reuse
                        // their TokenSampler workspace across every decode step.
                        next.clear_workspace();
                        samplers.push((sequence.request_id, next));
                        assert(sampler_states(samplers@) =~= sampler_states(states_before).push(
                            (sequence.request_id, next@),
                        ));
                    },
                    None => match greedy_token(values, row) {
                        Ok(token) => {
                            proof {
                                assert(!all_nan(slice)) by {
                                    assert(!nan_32(slice[token as int]));
                                }
                                assert forall|t: int| #[trigger] first_maximum(slice, t) implies t
                                    <= i32::MAX by {
                                    lemma_first_maximum_unique(slice, t, token as int);
                                }
                            }
                            tokens.push(token);
                        },
                        Err(error) => {
                            return Err(error);
                        },
                    },
                },
                None => {},
            }
            proof {
                assert forall|i: int| 0 <= i < row + 1 implies row_choice(
                    arithmetic,
                    m.active[rows[i].request_id.0],
                    row_logits(logits@, vocabulary, i),
                    #[trigger] tokens@[i],
                ) by {
                    if i < row {
                        assert(tokens@[i] == tokens_before[i]);
                    }
                }
            }
            row += 1;
        }
        Ok(BatchTokenSelection { batch_id, tokens, samplers })
    }

    /// Complete a batch with the tokens of a selection. Random streams advance only where the
    /// batch is completed.
    pub fn complete_selected_batch(&mut self, selection: BatchTokenSelection) -> (result: Result<
        Vec<i32>,
        ContinuousBatchError,
    >)
        requires
            old(self).wf(),
        ensures
            final(self).wf(),
            match (result, old(self)@.complete_error(selection.batch_id, selection.tokens@)) {
                (Ok(tokens), None) => tokens@ == selection.tokens@ && final(self)@
                    == with_samplers(
                    old(self)@.complete_state(selection.tokens@),
                    sampler_states(selection.samplers@),
                ),
                (Err(error), Some(message)) => error.0@ == message && final(self)@ == old(self)@,
                _ => false,
            },
    {
        match self.complete_batch(selection.batch_id, &selection.tokens) {
            Ok(_) => {},
            Err(error) => {
                return Err(error);
            },
        }
        let ghost start = self@;
        let ghost states = sampler_states(selection.samplers@);
        let samplers = selection.samplers;
        let mut i: usize = 0;
        assert(states.take(0) =~= Seq::empty());
        while i < samplers.len()
            invariant
                start.inv(),
                i <= samplers@.len(),
                states == sampler_states(samplers@),
                self.active.wf(),
                self.kv_cache.wf(),
                self@ == with_samplers(start, states.take(i as int)),
            decreases samplers@.len() - i,
        {
            let ghost middle = self@;
            let request_id = samplers[i].0;
            let next = samplers[i].1.clone();
            let ghost state = next@;
            proof {
                assert(states[i as int] == (request_id, state));
                assert(states.take(i + 1).drop_last() =~= states.take(i as int));
                assert(states.take(i + 1).last() == states[i as int]);
            }
            match self.active.get_mut(request_id.0) {
                Some(request) => {
                    request.sampler = Some(next);
                },
                None => {},
            }
            proof {
                if middle.active.contains_key(request_id.0) {
                    assert(self@.active[request_id.0] =~= (RequestModel {
                        sampler: Some(state),
                        ..middle.active[request_id.0]
                    }));
                    assert(self@.active =~= middle.active.insert(
                        request_id.0,
                        self@.active[request_id.0],
                    ));
                } else {
                    assert(self@.active =~= middle.active);
                }
                assert(self@ =~= with_samplers(start, states.take(i + 1)));
            }
            i += 1;
        }
        proof {
            assert(states.take(i as int) =~= states);
            lemma_samplers_inv(start, states);
        }
        Ok(selection.tokens)
    }
}

} // verus!
