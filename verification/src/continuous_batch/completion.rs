//! Applying the results of a batch, rolling one back, and changing limits between batches.

use crate::continuous_batch::batch::{
    row_models, BatchModel, ContinuousBatchConfig, ContinuousBatchError, RowModel,
    ScheduledBatchKind, ScheduledSequence,
};
use crate::continuous_batch::model::{
    reservations_backwards, reservations_of, restored, RequestModel, RequestPhase, SchedulerModel,
};
use crate::continuous_batch::scheduling::{backward_reservations, lemma_entry_request};
use crate::continuous_batch::soundness::{
    law_complete_inv, law_fail_inv, lemma_commit_settling, lemma_restored, lemma_settle_all,
    lemma_settle_one, settling,
};
use crate::continuous_batch::{any_negative, ContinuousBatchScheduler, FinishedGeneration};
use crate::generation::contains_token;
use crate::ordered::{has_key, key_index};
use crate::paged_kv::{KvReservationId, RequestId};
use crate::text::{decimal, push_number, text, with_number, with_numbers};
use vstd::prelude::*;

verus! {

/// The reservations of some rows.
fn reservations(rows: &Vec<ScheduledSequence>) -> (rids: Vec<KvReservationId>)
    ensures
        rids@ == reservations_of(row_models(rows@)),
{
    let mut rids: Vec<KvReservationId> = Vec::with_capacity(rows.len());
    let mut i: usize = 0;
    while i < rows.len()
        invariant
            i <= rows@.len(),
            rids@.len() == i,
            forall|j: int| 0 <= j < i ==> #[trigger] rids@[j] == rows@[j].reservation_id,
        decreases rows@.len() - i,
    {
        rids.push(rows[i].reservation_id);
        i += 1;
    }
    assert(rids@ =~= reservations_of(row_models(rows@)));
    rids
}

impl ContinuousBatchScheduler {
    /// Check that a batch is in flight under the identifier given.
    fn check_batch(&self, batch_id: u64) -> (result: Result<(), ContinuousBatchError>)
        ensures
            match (result, self@.batch_error(batch_id)) {
                (Ok(_), None) => true,
                (Err(error), Some(message)) => error.0@ == message,
                _ => false,
            },
    {
        match &self.in_flight {
            None => Err(
                ContinuousBatchError(with_number("batch ", batch_id, " is not in flight")),
            ),
            Some(batch) => if batch.id != batch_id {
                Err(
                    ContinuousBatchError(
                        with_numbers(
                            "batch ",
                            batch_id,
                            " cannot complete while batch ",
                            batch.id,
                            " is in flight",
                        ),
                    ),
                )
            } else {
                Ok(())
            },
        }
    }

    /// Apply one row's token.
    fn settle(&mut self, request_id: RequestId, token: i32, Ghost(row): Ghost<RowModel>)
        requires
            old(self).kv_cache.wf(),
            old(self).active.wf(),
            row.request_id == request_id,
            old(self)@.active.contains_key(request_id.0),
            old(self)@.kv.remove_error(request_id) is None,
        ensures
            final(self).kv_cache.wf(),
            final(self).active.wf(),
            final(self)@ == old(self)@.settle(row, token),
    {
        let ghost before = self@;
        let ghost request = before.active[request_id.0];
        let (stopped, finished): (bool, bool) = match self.active.get(request_id.0) {
            Some(request) => {
                let stopped = contains_token(&request.generation.eos_token_ids, token);
                let count: usize = request.generated_token_ids.len();
                (stopped, stopped || count >= request.generation.max_new_tokens || count + 1
                    == request.generation.max_new_tokens)
            },
            None => (false, false),
        };
        assert(finished == (stopped || request.generated.push(token).len()
            >= request.max_new_tokens));
        if finished {
            let removed = self.active.remove(request_id.0);
            let _ = self.kv_cache.remove_sequence(request_id);
            match removed {
                Some(mut request) => {
                    request.generated_token_ids.push(token);
                    self.finished.push_back(
                        FinishedGeneration {
                            request_id,
                            prompt_token_ids: request.prompt_token_ids,
                            generated_token_ids: request.generated_token_ids,
                            stopped_on_eos: stopped,
                        },
                    );
                },
                None => {},
            }
            proof {
                let after = before.settle(row, token);
                assert(self@.finished.last() =~= after.finished.last());
                assert(self@.finished =~= after.finished);
                assert(self@.active =~= after.active);
                assert(self@ =~= after);
            }
        } else {
            match self.active.get_mut(request_id.0) {
                Some(request) => {
                    request.generated_token_ids.push(token);
                    request.phase = RequestPhase::AwaitingDecode(token);
                },
                None => {},
            }
            proof {
                let after = before.settle(row, token);
                assert(self@.active[request_id.0] =~= after.active[request_id.0]);
                assert(self@.active =~= after.active);
                assert(self@ =~= after);
            }
        }
    }

    /// Commit every page reservation and apply one sampled/selected token per
    /// request. The caller must preserve the scheduled row order.
    pub fn complete_batch(&mut self, batch_id: u64, generated_token_ids: &[i32]) -> (result: Result<
        (),
        ContinuousBatchError,
    >)
        requires
            old(self).wf(),
        ensures
            final(self).wf(),
            match (result, old(self)@.complete_error(batch_id, generated_token_ids@)) {
                (Ok(_), None) => final(self)@ == old(self)@.complete_state(generated_token_ids@),
                (Err(error), Some(message)) => error.0@ == message && final(self)@ == old(self)@,
                _ => false,
            },
    {
        let ghost before = self@;
        let ghost tokens = generated_token_ids@;
        match self.check_batch(batch_id) {
            Ok(_) => {},
            Err(error) => {
                return Err(error);
            },
        }
        let rows: usize = match &self.in_flight {
            Some(batch) => batch.sequences.len(),
            None => 0,
        };
        if generated_token_ids.len() != rows {
            let mut message = with_numbers(
                "batch ",
                batch_id,
                " has ",
                rows as u64,
                " rows but ",
            );
            push_number(&mut message, generated_token_ids.len() as u64);
            message.append(" generated tokens were supplied");
            return Err(ContinuousBatchError(message));
        }
        if any_negative(generated_token_ids) {
            return Err(ContinuousBatchError(text("generated token IDs must be non-negative")));
        }
        proof {
            law_complete_inv(before, batch_id, tokens);
            lemma_commit_settling(before);
        }
        let batch = match self.in_flight.take() {
            Some(batch) => batch,
            None => {
                return Ok(());
            },
        };
        let ghost model = batch@;
        let rids = reservations(&batch.sequences);
        let _ = self.kv_cache.commit_appends(&rids);
        let ghost start = SchedulerModel {
            kv: before.kv.commit_all(reservations_of(model.rows)),
            in_flight: None,
            ..before
        };
        assert(self@ =~= start);
        let mut i: usize = 0;
        proof {
            assert(model.rows.take(0) =~= Seq::empty());
            assert(tokens.take(0) =~= Seq::empty());
        }
        while i < batch.sequences.len()
            invariant
                i <= batch.sequences@.len(),
                model == batch@,
                model.rows.len() == tokens.len(),
                model.rows.len() == batch.sequences@.len(),
                tokens == generated_token_ids@,
                self.kv_cache.wf(),
                self.active.wf(),
                settling(start, model, 0),
                self@ == start.settle_all(model.rows.take(i as int), tokens.take(i as int)),
            decreases batch.sequences@.len() - i,
        {
            proof {
                lemma_settle_all(start, model, tokens, i as int);
                lemma_settle_one(self@, model, i as int, tokens[i as int]);
                assert(model.rows[i as int] == batch.sequences@[i as int]@);
                assert(model.rows.take(i + 1).drop_last() =~= model.rows.take(i as int));
                assert(tokens.take(i + 1).drop_last() =~= tokens.take(i as int));
            }
            let request_id = batch.sequences[i].request_id;
            self.settle(request_id, generated_token_ids[i], Ghost(model.rows[i as int]));
            i += 1;
        }
        proof {
            assert(model.rows.take(i as int) =~= model.rows);
            assert(tokens.take(i as int) =~= tokens);
        }
        Ok(())
    }

    /// Roll back all page allocations from a failed device batch and restore
    /// requests to the exact state from which that batch was scheduled.
    pub fn fail_batch(&mut self, batch_id: u64) -> (result: Result<(), ContinuousBatchError>)
        requires
            old(self).wf(),
        ensures
            final(self).wf(),
            match (result, old(self)@.batch_error(batch_id)) {
                (Ok(_), None) => final(self)@ == old(self)@.fail_state(),
                (Err(error), Some(message)) => error.0@ == message && final(self)@ == old(self)@,
                _ => false,
            },
    {
        let ghost before = self@;
        match self.check_batch(batch_id) {
            Ok(_) => {},
            Err(error) => {
                return Err(error);
            },
        }
        proof {
            law_fail_inv(before, batch_id);
        }
        let batch = match self.in_flight.take() {
            Some(batch) => batch,
            None => {
                return Ok(());
            },
        };
        let ghost model = batch@;
        let rids = backward_reservations(&batch.sequences);
        let _ = self.kv_cache.cancel_appends(&rids);
        let ghost kv = before.kv.cancel_all(reservations_backwards(model.rows));
        let mut i: usize = 0;
        proof {
            assert(model.rows.take(0) =~= Seq::empty());
            assert(self@ =~= (SchedulerModel { kv, in_flight: None, ..before }));
        }
        while i < batch.sequences.len()
            invariant
                i <= batch.sequences@.len(),
                model == batch@,
                model.rows.len() == batch.sequences@.len(),
                before.inv(),
                before.in_flight == Some(model),
                self.kv_cache.wf(),
                self.active.wf(),
                self@ == (SchedulerModel {
                    kv,
                    active: restored(before.active, model.kind, model.rows.take(i as int)),
                    in_flight: None,
                    ..before
                }),
            decreases batch.sequences@.len() - i,
        {
            let ghost middle = self@;
            let ghost shorter = model.rows.take(i as int);
            let ghost longer = model.rows.take(i + 1);
            proof {
                assert(before.row_sound(model, i as int)) by {
                    assert(model.rows[i as int] == model.rows[i as int]);
                }
                assert(longer.drop_last() =~= shorter);
                assert(longer.last() == model.rows[i as int]);
                lemma_restored_prefix(before, model, i as int);
            }
            let row = &batch.sequences[i];
            assert(row@ == model.rows[i as int]);
            let phase = match batch.kind {
                ScheduledBatchKind::Prefill => RequestPhase::NeedsPrefill,
                ScheduledBatchKind::Decode => RequestPhase::AwaitingDecode(row.token_ids[0]),
            };
            let key: u64 = row.request_id.0;
            match self.active.get_mut(key) {
                Some(request) => {
                    request.phase = phase;
                },
                None => {},
            }
            proof {
                assert(self@.active[key] =~= (RequestModel { phase, ..middle.active[key] }));
                assert(self@.active =~= restored(before.active, model.kind, longer));
                assert(self@ =~= (SchedulerModel {
                    kv,
                    active: restored(before.active, model.kind, longer),
                    in_flight: None,
                    ..before
                }));
            }
            i += 1;
        }
        proof {
            assert(model.rows.take(i as int) =~= model.rows);
            assert(self@ =~= before.fail_state());
        }
        Ok(())
    }

    /// Lowest useful token limit without implementing chunked prefill. This
    /// avoids an OOM retry policy reducing the limit below a waiting prompt and
    /// silently stranding it forever. Decode-only work has a minimum of one.
    pub fn minimum_batch_token_limit(&self) -> (limit: usize)
        requires
            self.wf(),
        ensures
            least_limit(self@, limit),
    {
        let ghost m = self@;
        let mut limit: usize = 1;
        let mut i: usize = 0;
        while i < self.pending.len()
            invariant
                self.wf(),
                m == self@,
                i <= self.pending@.len(),
                limit >= 1,
                forall|j: int| 0 <= j < i ==> (#[trigger] m.pending[j]).prompt.len() <= limit,
                limit == 1 || exists|j: int|
                    0 <= j < i && (#[trigger] m.pending[j]).prompt.len() == limit,
            decreases self.pending@.len() - i,
        {
            let length: usize = self.pending[i].prompt_token_ids.len();
            assert(m.pending[i as int].prompt.len() == length);
            if length > limit {
                limit = length;
            }
            i += 1;
        }
        let ghost entries = self.active.entries@;
        let ghost queued = limit;
        let mut k: usize = 0;
        while k < self.active.entries.len()
            invariant
                self.wf(),
                m == self@,
                entries == self.active.entries@,
                k <= entries.len(),
                limit >= queued,
                limit == queued || exists|x: u64| #[trigger]
                    m.active.contains_key(x) && m.active[x].phase is NeedsPrefill
                        && m.active[x].prompt.len() == limit,
                forall|j: int|
                    0 <= j < k && (#[trigger] entries[j]).1.phase is NeedsPrefill
                        ==> entries[j].1@.prompt.len() <= limit,
            decreases entries.len() - k,
        {
            if let RequestPhase::NeedsPrefill = self.active.entries[k].1.phase {
                let length: usize = self.active.entries[k].1.prompt_token_ids.len();
                proof {
                    lemma_entry_request(self, k as int);
                }
                if length > limit {
                    limit = length;
                    assert(m.active.contains_key(entries[k as int].0));
                }
            }
            k += 1;
        }
        proof {
            assert forall|x: u64| #[trigger]
                m.active.contains_key(x) && m.active[x].phase is NeedsPrefill implies m.active[x].prompt.len()
                <= limit by {
                let j = key_index(entries, x);
                assert(has_key(entries, x));
                assert(entries[j].0 == x);
                lemma_entry_request(self, j);
                assert(entries[j].1.phase is NeedsPrefill);
            }
        }
        limit
    }

    pub fn batch_token_limit(&self) -> (limit: usize)
        ensures
            limit == self@.config.max_batch_tokens,
    {
        self.config.max_batch_tokens
    }

    /// Reconfigure between batches after an OOM or workload change.
    pub fn set_batch_token_limit(&mut self, limit: usize) -> (result: Result<
        (),
        ContinuousBatchError,
    >)
        requires
            old(self).wf(),
        ensures
            final(self).wf(),
            limit_changed(old(self)@, limit, result, final(self)@),
    {
        if self.in_flight.is_some() {
            return Err(
                ContinuousBatchError(text("cannot change token limit while a batch is in flight")),
            );
        }
        let minimum: usize = self.minimum_batch_token_limit();
        if limit < minimum {
            return Err(
                ContinuousBatchError(
                    with_numbers(
                        "token limit ",
                        limit as u64,
                        " would strand a prompt requiring ",
                        minimum as u64,
                        " tokens",
                    ),
                ),
            );
        }
        let ghost before = self@;
        self.config.max_batch_tokens = limit;
        proof {
            let after = with_limit(before, limit);
            assert(self@ =~= after);
            assert forall|k: u64| #[trigger] after.active.contains_key(k) implies after.active_sound(
                k,
            ) by {
                assert(before.active_sound(k));
            }
            assert forall|j: int|
                #![trigger after.pending[j]]
                0 <= j < after.pending.len() implies after.pending_sound(j) by {
                assert(before.pending[j] == after.pending[j]);
                assert(before.pending_sound(j));
            }
            assert(after.inv());
        }
        Ok(())
    }
}

/// The least limit that every waiting prompt fits: the longest prompt, or one.
pub open spec fn least_limit(m: SchedulerModel, limit: usize) -> bool {
    &&& limit >= 1
    &&& forall|j: int| 0 <= j < m.pending.len() ==> (#[trigger] m.pending[j]).prompt.len() <= limit
    &&& forall|x: u64| #[trigger]
        m.active.contains_key(x) && m.active[x].phase is NeedsPrefill ==> m.active[x].prompt.len()
            <= limit
    &&& limit == 1 || (exists|j: int|
        0 <= j < m.pending.len() && (#[trigger] m.pending[j]).prompt.len() == limit) || (exists|
        x: u64,
    | #[trigger]
        m.active.contains_key(x) && m.active[x].phase is NeedsPrefill && m.active[x].prompt.len()
            == limit)
}

/// A state with another token limit.
pub open spec fn with_limit(m: SchedulerModel, limit: usize) -> SchedulerModel {
    SchedulerModel {
        config: ContinuousBatchConfig {
            max_batch_tokens: limit,
            ..m.config
        },
        ..m
    }
}

/// The token limit was changed; or refused because a batch is in flight or a prompt would be
/// stranded, with nothing changed.
pub open spec fn limit_changed(
    before: SchedulerModel,
    limit: usize,
    result: Result<(), ContinuousBatchError>,
    after: SchedulerModel,
) -> bool {
    if before.in_flight is Some {
        &&& after == before
        &&& result matches Err(error)
        &&& error.0@ == "cannot change token limit while a batch is in flight"@
    } else {
        exists|minimum: usize| #[trigger]
            least_limit(before, minimum) && if limit < minimum {
                &&& after == before
                &&& result matches Err(error)
                &&& error.0@ == "token limit "@ + decimal(limit as nat)
                    + " would strand a prompt requiring "@ + decimal(minimum as nat) + " tokens"@
            } else {
                result is Ok && after == with_limit(before, limit)
            }
    }
}

/// Restoring the phases of a prefix keeps every request.
proof fn lemma_restored_prefix(
    m: SchedulerModel,
    batch: BatchModel,
    n: int,
)
    requires
        m.inv(),
        m.in_flight == Some(batch),
        0 <= n < batch.rows.len(),
    ensures
        restored(m.active, batch.kind, batch.rows.take(n)).contains_key(
            batch.rows[n].request_id.0,
        ),
{
    let rows = batch.rows.take(n);
    assert forall|i: int|
        #![trigger rows[i]]
        0 <= i < rows.len() implies m.active.contains_key(rows[i].request_id.0) by {
        assert(rows[i] == batch.rows[i]);
        assert(m.row_sound(batch, i));
    }
    assert forall|i: int, j: int| 0 <= i < j < rows.len() implies (#[trigger] rows[i]).request_id.0
        != (#[trigger] rows[j]).request_id.0 by {
        assert(rows[i] == batch.rows[i]);
        assert(rows[j] == batch.rows[j]);
    }
    lemma_restored(m.active, batch.kind, rows);
    assert(m.row_sound(batch, n)) by {
        assert(batch.rows[n] == batch.rows[n]);
    }
}

} // verus!
