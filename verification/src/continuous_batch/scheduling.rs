//! Admission of queued requests and the choice of the next batch.

use crate::continuous_batch::batch::{
    row_models, BatchModel, ContinuousBatchError, KvAdmissionPolicy, RowModel, ScheduledBatch,
    ScheduledBatchKind, ScheduledSequence,
};
use crate::continuous_batch::model::{
    ascending_ids, budget_weight, gather, has_row, lemma_listing, lists, next_tokens,
    reservations_backwards, row_of, Gathered, RequestModel, RequestPhase, Scheduled, SchedulerModel,
};
use crate::continuous_batch::soundness::{
    batchable, law_attempt_inv, law_promoted_inv, law_rollback_undoes_gather, lemma_batchable,
    lemma_budget_non_negative, lemma_gather, lemma_promote_front_inv,
};
use crate::continuous_batch::{
    active_models, request_page_budget, ActiveRequest, ContinuousBatchScheduler,
};
use crate::generation::copy_tokens;
use crate::ordered::{ascending, entry_map, has_key, key_index, lemma_entry, lemma_insert};
use crate::paged_kv::{KvModel, KvReservationId, RequestId};
use crate::paged_kv_laws::law_begin_iff_can_append;
use crate::sums::{key_bound, lemma_sum_change, lemma_sum_order, lemma_sum_zero, sum_below};
use crate::text::{text, with_number};
use vstd::prelude::*;

verus! {

/// The outcome of an attempt, as a scheduler reports it.
pub open spec fn reports(
    expected: Scheduled,
    result: Result<Option<ScheduledBatch>, ContinuousBatchError>,
    after: SchedulerModel,
) -> bool {
    &&& after == expected.after
    &&& match (result, expected.result) {
        (Ok(Some(batch)), Ok(Some(model))) => batch@ == model,
        (Ok(None), Ok(None)) => true,
        (Err(error), Err(message)) => error.0@ == message,
        _ => false,
    }
}

/// A batch that was put together can be launched; without one the state is in order as it is.
pub open spec fn can_launch(
    result: Result<Option<ScheduledBatch>, ContinuousBatchError>,
    after: ContinuousBatchScheduler,
) -> bool {
    match result {
        Ok(Some(batch)) => after@.launch(batch@, true).inv() && after@.launch(batch@, false).inv(),
        _ => after.wf(),
    }
}

/// The requests in the first `n` entries.
spec fn first_entries(entries: Seq<(u64, ActiveRequest)>, n: int) -> Map<u64, RequestModel> {
    active_models(entry_map(entries.take(n)))
}

proof fn lemma_first_entries(entries: Seq<(u64, ActiveRequest)>, n: int)
    requires
        ascending(entries),
        0 <= n < entries.len(),
    ensures
        first_entries(entries, n + 1) == first_entries(entries, n).insert(
            entries[n].0,
            entries[n].1@,
        ),
        !first_entries(entries, n).contains_key(entries[n].0),
{
    let short = entries.take(n);
    let key = entries[n].0;
    let value = entries[n].1;
    assert(ascending(short));
    assert(entries.take(n + 1) =~= short.insert(n, (key, value)));
    lemma_insert(short, n, key, value);
    if has_key(short, key) {
        let i = key_index(short, key);
        assert(short[i] == entries[i]);
        assert(entries[i].0 < entries[n].0);
    }
    assert(first_entries(entries, n + 1) =~= first_entries(entries, n).insert(key, value@));
}

/// The entries of a scheduler are its admitted requests.
pub(crate) proof fn lemma_entry_request(s: &ContinuousBatchScheduler, i: int)
    requires
        s.active.wf(),
        0 <= i < s.active.entries@.len(),
    ensures
        s@.active.contains_key(s.active.entries@[i].0),
        s@.active[s.active.entries@[i].0] == s.active.entries@[i].1@,
{
    lemma_entry(s.active.entries@, i);
}

impl ContinuousBatchScheduler {
    /// The pages not claimed by the budgets of admitted requests.
    fn unclaimed_pages(&self) -> (pages: usize)
        requires
            self.wf(),
            self@.reserves(),
        ensures
            pages == self@.kv.config.num_pages - self@.total_budget(),
    {
        let kv = self.kv_cache.config();
        let ghost entries = self.active.entries@;
        let ghost block = kv.block_size;
        let mut available: usize = kv.num_pages;
        let mut i: usize = 0;
        proof {
            assert(entries.take(0) =~= Seq::empty());
            assert(first_entries(entries, 0) =~= Map::empty());
            lemma_sum_zero(budget_weight(first_entries(entries, 0), block), key_bound());
        }
        while i < self.active.entries.len()
            invariant
                self.wf(),
                self@.reserves(),
                entries == self.active.entries@,
                kv == self@.kv.config,
                block == kv.block_size,
                i <= entries.len(),
                available == kv.num_pages - sum_below(
                    budget_weight(first_entries(entries, i as int), block),
                    key_bound(),
                ),
            decreases entries.len() - i,
        {
            let request = &self.active.entries[i].1;
            let key: u64 = self.active.entries[i].0;
            let length: usize = request.prompt_token_ids.len();
            let max_new_tokens: usize = request.generation.max_new_tokens;
            proof {
                lemma_entry_request(self, i as int);
                assert(self@.active_sound(key));
                lemma_first_entries(entries, i as int);
                let short = first_entries(entries, i as int);
                let long = first_entries(entries, i + 1);
                lemma_sum_change(
                    budget_weight(short, block),
                    budget_weight(long, block),
                    key,
                    key_bound(),
                );
                assert forall|k: u64| #[trigger] budget_weight(long, block)(k) <= budget_weight(
                    self@.active,
                    block,
                )(k) by {
                    lemma_budget_non_negative(self@, k);
                    if long.contains_key(k) {
                        let e = entries.take(i + 1);
                        assert(ascending(e));
                        let j = key_index(e, k);
                        assert(has_key(e, k));
                        assert(e[j] == entries[j]);
                        lemma_entry(e, j);
                        lemma_entry_request(self, j);
                    }
                }
                lemma_sum_order(
                    budget_weight(long, block),
                    budget_weight(self@.active, block),
                    key_bound(),
                );
            }
            let budget: usize = request_page_budget(length, max_new_tokens, kv.block_size);
            available -= budget;
            i += 1;
        }
        proof {
            assert(entries.take(i as int) =~= entries);
        }
        available
    }

    /// Move queued requests among the admitted ones, in order of arrival, for as long as they fit.
    pub(crate) fn promote_pending(&mut self)
        requires
            old(self).wf(),
        ensures
            final(self).wf(),
            final(self)@ == old(self)@.promoted(),
    {
        let reserve = match self.options.kv_admission {
            KvAdmissionPolicy::ReserveSequenceCapacity => true,
            KvAdmissionPolicy::OnDemand => false,
        };
        let block_size: usize = self.kv_cache.config().block_size;
        let mut available: usize = if reserve {
            self.unclaimed_pages()
        } else {
            0
        };
        let ghost goal = self@.promoted();
        assert(self@.active.dom() =~= self.active@.dom());
        while self.active.len() < self.config.max_active_sequences
            invariant_except_break
                self.wf(),
                reserve == self@.reserves(),
                block_size == self@.kv.config.block_size,
                self@.promoted() == goal,
                reserve ==> available == self@.kv.config.num_pages - self@.total_budget(),
                self@.active.dom() == self.active@.dom(),
            ensures
                self.wf(),
                self@ == goal,
            decreases self.pending@.len(),
        {
            let ghost before = self@;
            let (length, max_new_tokens): (usize, usize) = if self.pending.len() == 0 {
                break ;
            } else {
                let front = &self.pending[0];
                (front.prompt_token_ids.len(), front.generation.max_new_tokens)
            };
            proof {
                assert(before.pending[0] == self.pending@[0]@);
                assert(before.pending_sound(0));
            }
            if reserve {
                let pages: usize = request_page_budget(length, max_new_tokens, block_size);
                // FIFO admission prevents a stream of short arrivals from
                // indefinitely overtaking an older, larger request.
                if pages > available {
                    break ;
                }
                available -= pages;
            }
            assert(before.can_admit());
            proof {
                lemma_promote_front_inv(before);
            }
            let pending = match self.pending.pop_front() {
                Some(pending) => pending,
                None => {
                    break ;
                },
            };
            let ghost front = pending@;
            let _ = self.kv_cache.create_sequence(pending.id);
            let request = ActiveRequest {
                prompt_token_ids: pending.prompt_token_ids,
                generation: pending.generation,
                sampler: pending.sampler,
                generated_token_ids: Vec::new(),
                phase: RequestPhase::NeedsPrefill,
            };
            let ghost fresh = request@;
            self.active.insert(pending.id.0, request);
            proof {
                let after = before.promote_front();
                assert(fresh =~= (RequestModel {
                    prompt: front.prompt,
                    max_new_tokens: front.max_new_tokens,
                    eos: front.eos,
                    sampler: front.sampler,
                    generated: Seq::empty(),
                    phase: RequestPhase::NeedsPrefill,
                }));
                assert(self@.active =~= after.active);
                assert(self@.pending =~= after.pending);
                assert(self@.kv =~= after.kv);
                assert(self@ =~= after);
                lemma_sum_change(
                    budget_weight(before.active, block_size),
                    budget_weight(after.active, block_size),
                    front.id.0,
                    key_bound(),
                );
                assert(self@.active.dom() =~= self.active@.dom());
            }
        }
    }

    /// The tokens that the next pass over a request reads.
    fn tokens_for(&self, id: u64) -> (tokens: Vec<i32>)
        requires
            self.active.wf(),
            self@.active.contains_key(id),
        ensures
            tokens@ == next_tokens(self@.active[id]),
    {
        match self.active.get(id) {
            Some(request) => match request.phase {
                RequestPhase::AwaitingDecode(token) => {
                    let tokens = vec![token];
                    assert(tokens@ =~= seq![token]);
                    tokens
                },
                _ => copy_tokens(&request.prompt_token_ids),
            },
            None => Vec::new(),
        }
    }

    /// The number of tokens that the next pass over a request reads.
    fn token_count_for(&self, id: u64) -> (count: usize)
        requires
            self.active.wf(),
            self@.active.contains_key(id),
        ensures
            count == next_tokens(self@.active[id]).len(),
    {
        match self.active.get(id) {
            Some(request) => match request.phase {
                RequestPhase::AwaitingDecode(_) => 1,
                _ => request.prompt_token_ids.len(),
            },
            None => 0,
        }
    }

    /// Reserve rows for the listed requests; where identifiers run out, the rows reserved so far
    /// are given back.
    fn gather_rows(
        &mut self,
        ids: &Vec<u64>,
        limit: usize,
        Ghost(kind): Ghost<ScheduledBatchKind>,
    ) -> (result: Result<Vec<ScheduledSequence>, ContinuousBatchError>)
        requires
            old(self).wf(),
            batchable(old(self)@, kind, ids@),
        ensures
            final(self).kv_cache.wf(),
            final(self).active == old(self).active,
            ({
                let before = old(self)@;
                let g = gather(before.kv, before.active, ids@, limit as int);
                match result {
                    Ok(rows) => !g.failed && row_models(rows@) == g.rows && final(self)@ == (
                    SchedulerModel { kv: g.kv, ..before }),
                    Err(error) => g.failed && error.0@ == "paged KV reservation id overflow"@
                        && final(self)@ == (SchedulerModel {
                        kv: KvModel { next_reservation: g.kv.next_reservation, ..before.kv },
                        ..before
                    }),
                }
            }),
    {
        let ghost before = self@;
        let ghost kv = before.kv;
        let ghost active = before.active;
        proof {
            lemma_batchable(before, kind, ids@);
        }
        let mut rows: Vec<ScheduledSequence> = Vec::new();
        let mut i: usize = 0;
        assert(ids@.take(0) =~= Seq::empty());
        assert(row_models(rows@) =~= Seq::empty());
        while i < ids.len()
            invariant
                i <= ids@.len(),
                before == old(self)@,
                self.kv_cache.wf(),
                self.active == old(self).active,
                self.active.wf(),
                self@ == (SchedulerModel { kv: self@.kv, ..before }),
                active == before.active,
                kv == before.kv,
                kv.consistent(),
                batchable(before, kind, ids@),
                before.inv(),
                forall|j: int|
                    0 <= j < ids@.len() ==> kv.sequences.contains_key(#[trigger] ids@[j])
                        && next_tokens(active[ids@[j]]).len() <= usize::MAX && next_tokens(
                        active[ids@[j]],
                    ).len() > 0,
                !gather(kv, active, ids@.take(i as int), limit as int).failed,
                self@.kv == gather(kv, active, ids@.take(i as int), limit as int).kv,
                row_models(rows@) == gather(
                    kv,
                    active,
                    ids@.take(i as int),
                    limit as int,
                ).rows,
            decreases ids@.len() - i,
        {
            let ghost shorter = ids@.take(i as int);
            let ghost longer = ids@.take(i + 1);
            let ghost g = gather(kv, active, shorter, limit as int);
            proof {
                assert(longer.drop_last() =~= shorter);
                assert(longer.last() == ids@[i as int]);
                assert forall|j: int| 0 <= j < shorter.len() implies kv.sequences.contains_key(
                    #[trigger] shorter[j],
                ) && next_tokens(active[shorter[j]]).len() <= usize::MAX by {
                    assert(shorter[j] == ids@[j]);
                }
                assert(shorter.no_duplicates());
                lemma_gather(kv, active, shorter, limit as int);
            }
            let id = RequestId(ids[i]);
            assert(active.contains_key(ids@[i as int]));
            assert(kv.sequences.contains_key(ids@[i as int]));
            if rows.len() < limit {
                let count: usize = self.token_count_for(id.0);
                let possible = match self.kv_cache.can_append(id, count) {
                    Ok(possible) => possible,
                    Err(_) => false,
                };
                if possible {
                    let tokens = self.tokens_for(id.0);
                    let ghost listed = tokens@;
                    proof {
                        law_begin_iff_can_append(g.kv, id, count);
                    }
                    match self.kv_cache.begin_append(id, count) {
                        Ok(reservation) => {
                            let ghost old_rows = rows@;
                            let ghost value = reservation@;
                            rows.push(
                                ScheduledSequence {
                                    request_id: reservation.request_id,
                                    token_ids: tokens,
                                    start_position: reservation.start_position,
                                    context_length: reservation.context_length,
                                    block_table: reservation.block_table,
                                    reservation_id: reservation.id,
                                },
                            );
                            proof {
                                assert(rows@.last()@ =~= row_of(value, listed));
                                assert(row_models(rows@) =~= row_models(old_rows).push(
                                    row_of(value, listed),
                                ));
                            }
                        },
                        Err(error) => {
                            let rids = backward_reservations(&rows);
                            proof {
                                law_rollback_undoes_gather(kv, active, shorter, limit as int);
                                lemma_failed_stays(kv, active, ids@, limit as int, i + 1);
                            }
                            let _ = self.kv_cache.cancel_appends(&rids);
                            assert(self@ =~= (SchedulerModel {
                                kv: KvModel { next_reservation: g.kv.next_reservation, ..kv },
                                ..before
                            }));
                            assert(gather(kv, active, longer, limit as int) =~= (Gathered {
                                failed: true,
                                ..g
                            }));
                            return Err(ContinuousBatchError::from(error));
                        },
                    }
                }
            }
            i += 1;
        }
        assert(ids@.take(i as int) =~= ids@);
        Ok(rows)
    }
}

/// Once identifiers ran out, further requests change nothing.
proof fn lemma_failed_stays(
    kv: KvModel,
    active: Map<u64, RequestModel>,
    ids: Seq<u64>,
    limit: int,
    n: int,
)
    requires
        0 <= n <= ids.len(),
        gather(kv, active, ids.take(n), limit).failed,
    ensures
        gather(kv, active, ids, limit) == gather(kv, active, ids.take(n), limit),
    decreases ids.len(),
{
    if n < ids.len() {
        assert(ids.drop_last().take(n) =~= ids.take(n));
        lemma_failed_stays(kv, active, ids.drop_last(), limit, n);
    } else {
        assert(ids.take(n) =~= ids);
    }
}

/// The reservations of some rows, last row first.
pub(crate) fn backward_reservations(rows: &Vec<ScheduledSequence>) -> (rids: Vec<KvReservationId>)
    ensures
        rids@ == reservations_backwards(row_models(rows@)),
{
    let mut rids: Vec<KvReservationId> = Vec::with_capacity(rows.len());
    let mut left: usize = rows.len();
    while left > 0
        invariant
            left <= rows@.len(),
            rids@.len() == rows@.len() - left,
            forall|i: int|
                0 <= i < rids@.len() ==> #[trigger] rids@[i] == rows@[rows@.len() - 1
                    - i].reservation_id,
        decreases left,
    {
        left -= 1;
        rids.push(rows[left].reservation_id);
    }
    assert(rids@ =~= reservations_backwards(row_models(rows@)));
    rids
}

impl ContinuousBatchScheduler {
    /// Turn reserved rows into a batch that owns their requests.
    fn finish_schedule(&mut self, kind: ScheduledBatchKind, rows: Vec<ScheduledSequence>) -> (batch:
        ScheduledBatch)
        requires
            old(self).active.wf(),
            old(self).kv_cache.wf(),
            old(self).next_batch < u64::MAX,
            forall|i: int|
                #![trigger row_models(rows@)[i]]
                0 <= i < rows@.len() ==> old(self)@.active.contains_key(
                    row_models(rows@)[i].request_id.0,
                ),
        ensures
            final(self).active.wf(),
            final(self).kv_cache.wf(),
            batch@ == (BatchModel {
                id: old(self).next_batch,
                kind,
                rows: row_models(rows@),
            }),
            final(self)@ == (SchedulerModel {
                active: old(self)@.active.map_entries(
                    |k: u64, r: RequestModel|
                        if has_row(row_models(rows@), k) {
                            RequestModel {
                                phase: RequestPhase::InFlight(old(self).next_batch),
                                ..r
                            }
                        } else {
                            r
                        },
                ),
                next_batch: (old(self).next_batch + 1) as u64,
                ..old(self)@
            }),
    {
        let id: u64 = self.next_batch;
        let ghost before = self@;
        let ghost models = row_models(rows@);
        self.next_batch = id + 1;
        let mut i: usize = 0;
        assert(before.active =~= marked(before.active, models.take(0), id));
        while i < rows.len()
            invariant
                i <= rows@.len(),
                models == row_models(rows@),
                self.active.wf(),
                self.kv_cache.wf(),
                forall|j: int|
                    #![trigger row_models(rows@)[j]]
                    0 <= j < rows@.len() ==> before.active.contains_key(
                        row_models(rows@)[j].request_id.0,
                    ),
                self@ == (SchedulerModel {
                    active: marked(before.active, models.take(i as int), id),
                    next_batch: (id + 1) as u64,
                    ..before
                }),
            decreases rows@.len() - i,
        {
            let ghost middle = self@;
            let key: u64 = rows[i].request_id.0;
            assert(row_models(rows@)[i as int].request_id.0 == key);
            match self.active.get_mut(key) {
                Some(request) => {
                    request.phase = RequestPhase::InFlight(id);
                },
                None => {},
            }
            proof {
                let shorter = models.take(i as int);
                let longer = models.take(i + 1);
                assert(longer =~= shorter.push(models[i as int]));
                assert forall|k: u64| #[trigger] has_row(longer, k) == (has_row(shorter, k) || k
                    == key) by {
                    if has_row(longer, k) {
                        let j = choose|j: int|
                            0 <= j < longer.len() && (#[trigger] longer[j]).request_id.0 == k;
                        if j < i {
                            assert(shorter[j].request_id.0 == k);
                        }
                    }
                    if has_row(shorter, k) {
                        let j = choose|j: int|
                            0 <= j < shorter.len() && (#[trigger] shorter[j]).request_id.0 == k;
                        assert(longer[j].request_id.0 == k);
                    }
                    assert(longer[i as int].request_id.0 == key);
                }
                assert(middle.active.contains_key(key));
                assert(self@.active[key] =~= (RequestModel {
                    phase: RequestPhase::InFlight(id),
                    ..middle.active[key]
                }));
                assert(self@.active =~= middle.active.insert(key, self@.active[key]));
                assert(self@.active =~= marked(before.active, longer, id));
                assert(self@ =~= (SchedulerModel {
                    active: marked(before.active, longer, id),
                    next_batch: (id + 1) as u64,
                    ..before
                }));
            }
            i += 1;
        }
        proof {
            assert(models.take(i as int) =~= models);
            assert(self@.active =~= before.active.map_entries(
                |k: u64, r: RequestModel|
                    if has_row(models, k) {
                        RequestModel { phase: RequestPhase::InFlight(before.next_batch), ..r }
                    } else {
                        r
                    },
            ));
        }
        ScheduledBatch { id, kind, sequences: rows }
    }

    /// Reserve rows for the listed requests and turn them into a batch.
    pub(crate) fn attempt(
        &mut self,
        kind: ScheduledBatchKind,
        ids: &Vec<u64>,
        limit: usize,
    ) -> (result: Result<Option<ScheduledBatch>, ContinuousBatchError>)
        requires
            old(self).wf(),
            old(self)@.in_flight is None,
            old(self)@.next_batch < u64::MAX,
            batchable(old(self)@, kind, ids@),
        ensures
            final(self).active.wf(),
            final(self).kv_cache.wf(),
            reports(old(self)@.attempt(kind, ids@, limit as int), result, final(self)@),
            can_launch(result, *final(self)),
    {
        let ghost before = self@;
        proof {
            lemma_batchable(before, kind, ids@);
            lemma_gather(before.kv, before.active, ids@, limit as int);
            law_attempt_inv(before, kind, ids@, limit as int, true);
            law_attempt_inv(before, kind, ids@, limit as int, false);
        }
        let rows = match self.gather_rows(ids, limit, Ghost(kind)) {
            Ok(rows) => rows,
            Err(error) => {
                return Err(error);
            },
        };
        let ghost g = gather(before.kv, before.active, ids@, limit as int);
        if rows.len() == 0 {
            proof {
                lemma_nothing_gathered(before.kv, before.active, ids@, limit as int);
                assert(self@ =~= before);
            }
            return Ok(None);
        }
        proof {
            assert forall|i: int|
                #![trigger row_models(rows@)[i]]
                0 <= i < rows@.len() implies self@.active.contains_key(
                row_models(rows@)[i].request_id.0,
            ) by {
                let k = g.rows[i].request_id.0;
                assert(row_models(rows@)[i] == g.rows[i]);
                assert(has_row(g.rows, k));
                assert(ids@.contains(k));
                let x = choose|x: int| 0 <= x < ids@.len() && ids@[x] == k;
                assert(before.active.contains_key(ids@[x]));
            }
        }
        let batch = self.finish_schedule(kind, rows);
        proof {
            let expected = before.attempt(kind, ids@, limit as int);
            assert(self@.active =~= expected.after.active);
            assert(self@ =~= expected.after);
        }
        Ok(Some(batch))
    }
}

/// Requests with the owners of some rows marked as in flight.
pub open spec fn marked(
    active: Map<u64, RequestModel>,
    rows: Seq<RowModel>,
    batch_id: u64,
) -> Map<u64, RequestModel> {
    active.map_entries(
        |k: u64, r: RequestModel|
            if has_row(rows, k) {
                RequestModel { phase: RequestPhase::InFlight(batch_id), ..r }
            } else {
                r
            },
    )
}

/// Where no row was reserved, nothing changed.
proof fn lemma_nothing_gathered(
    kv: KvModel,
    active: Map<u64, RequestModel>,
    ids: Seq<u64>,
    limit: int,
)
    requires
        gather(kv, active, ids, limit).rows.len() == 0,
    ensures
        gather(kv, active, ids, limit).kv == kv,
    decreases ids.len(),
{
    if ids.len() > 0 {
        lemma_nothing_gathered(kv, active, ids.drop_last(), limit);
    }
}

/// One of the first `n` entries is request `k`, waiting for its next token.
spec fn awaits_decode(entries: Seq<(u64, ActiveRequest)>, n: int, k: u64) -> bool {
    exists|x: int|
        0 <= x < n && (#[trigger] entries[x]).0 == k && entries[x].1.phase is AwaitingDecode
}

impl ContinuousBatchScheduler {
    /// The requests that wait for their next token, oldest first.
    fn decode_candidates(&self) -> (ids: Vec<u64>)
        requires
            self.wf(),
        ensures
            ids@ == self@.decode_candidates(),
            batchable(self@, ScheduledBatchKind::Decode, ids@),
    {
        let ghost entries = self.active.entries@;
        let mut ids: Vec<u64> = Vec::new();
        let mut i: usize = 0;
        while i < self.active.entries.len()
            invariant
                self.wf(),
                entries == self.active.entries@,
                i <= entries.len(),
                ascending_ids(ids@),
                forall|j: int|
                    0 <= j < ids@.len() ==> awaits_decode(entries, i as int, #[trigger] ids@[j]),
                forall|x: int|
                    0 <= x < i && (#[trigger] entries[x]).1.phase is AwaitingDecode
                        ==> ids@.contains(entries[x].0),
            decreases entries.len() - i,
        {
            let ghost before = ids@;
            if let RequestPhase::AwaitingDecode(_) = self.active.entries[i].1.phase {
                ids.push(self.active.entries[i].0);
            }
            proof {
                assert forall|a: int, b: int| 0 <= a < b < ids@.len() implies ids@[a] < ids@[b] by {
                    if b == before.len() {
                        assert(awaits_decode(entries, i as int, before[a]));
                        let x = choose|x: int|
                            0 <= x < i && (#[trigger] entries[x]).0 == before[a]
                                && entries[x].1.phase is AwaitingDecode;
                        assert(entries[x].0 < entries[i as int].0);
                    }
                }
                assert forall|j: int| 0 <= j < ids@.len() implies awaits_decode(
                    entries,
                    i + 1,
                    #[trigger] ids@[j],
                ) by {
                    if j < before.len() {
                        assert(ids@[j] == before[j]);
                        assert(awaits_decode(entries, i as int, before[j]));
                        let x = choose|x: int|
                            0 <= x < i && (#[trigger] entries[x]).0 == before[j]
                                && entries[x].1.phase is AwaitingDecode;
                        assert(entries[x].0 == ids@[j]);
                    } else {
                        assert(entries[i as int].0 == ids@[j]);
                    }
                }
                assert forall|x: int|
                    0 <= x < i + 1 && (#[trigger] entries[x]).1.phase is AwaitingDecode implies ids@.contains(
                entries[x].0) by {
                    if x < i {
                        assert(before.contains(entries[x].0));
                        let j = choose|j: int| 0 <= j < before.len() && before[j] == entries[x].0;
                        assert(ids@[j] == entries[x].0);
                    } else {
                        assert(ids@[ids@.len() - 1] == entries[x].0);
                    }
                }
            }
            i += 1;
        }
        proof {
            let p = |k: u64, r: RequestModel| r.phase is AwaitingDecode;
            assert forall|k: u64| #[trigger] ids@.contains(k) <==> self@.active.contains_key(k)
                && p(k, self@.active[k]) by {
                if ids@.contains(k) {
                    let j = choose|j: int| 0 <= j < ids@.len() && ids@[j] == k;
                    assert(awaits_decode(entries, i as int, ids@[j]));
                    let x = choose|x: int|
                        0 <= x < i && (#[trigger] entries[x]).0 == ids@[j]
                            && entries[x].1.phase is AwaitingDecode;
                    lemma_entry_request(self, x);
                }
                if self@.active.contains_key(k) && p(k, self@.active[k]) {
                    let x = key_index(entries, k);
                    assert(has_key(entries, k));
                    assert(entries[x].0 == k);
                    lemma_entry_request(self, x);
                    assert(entries[x].1.phase is AwaitingDecode);
                }
            }
            assert(lists(self@.active, p, ids@));
            lemma_listing(self@.active, p, ids@);
            assert forall|j: int| 0 <= j < ids@.len() implies self@.active.contains_key(
                #[trigger] ids@[j],
            ) && self@.active[ids@[j]].phase is AwaitingDecode by {
                assert(ids@.contains(ids@[j]));
            }
            assert(ids@.no_duplicates());
        }
        ids
    }

    /// Batch the next token of every running request that has room, oldest first.
    pub fn schedule_decode(&mut self) -> (result: Result<
        Option<ScheduledBatch>,
        ContinuousBatchError,
    >)
        requires
            old(self).wf(),
            old(self)@.in_flight is None,
            old(self)@.next_batch < u64::MAX,
        ensures
            final(self).active.wf(),
            final(self).kv_cache.wf(),
            reports(old(self)@.decode_attempt(), result, final(self)@),
            can_launch(result, *final(self)),
    {
        let ids = self.decode_candidates();
        let limit: usize = self.config.max_batch_tokens;
        self.attempt(ScheduledBatchKind::Decode, &ids, limit)
    }
}

impl ContinuousBatchScheduler {
    /// Record a batch as in flight.
    fn launch(&mut self, batch: &ScheduledBatch, prefer_prefill: bool)
        requires
            old(self).active.wf(),
            old(self).kv_cache.wf(),
            old(self)@.launch(batch@, prefer_prefill).inv(),
        ensures
            final(self).wf(),
            final(self)@ == old(self)@.launch(batch@, prefer_prefill),
    {
        let ghost before = self@;
        self.prefer_prefill = prefer_prefill;
        self.in_flight = Some(batch.clone());
        assert(self@ =~= before.launch(batch@, prefer_prefill));
    }

    /// Build the next device batch. At most one batch is in flight so page
    /// reservations have an unambiguous commit/rollback owner.
    pub fn schedule(&mut self) -> (result: Result<Option<ScheduledBatch>, ContinuousBatchError>)
        requires
            old(self).wf(),
        ensures
            final(self).wf(),
            reports(old(self)@.schedule(), result, final(self)@),
    {
        if let Some(batch) = &self.in_flight {
            return Err(
                ContinuousBatchError(with_number("batch ", batch.id, " is still in flight")),
            );
        }
        // Check before acquiring reservations: an exhausted batch ID must not
        // leak pages or strand requests in a partially scheduled batch.
        if self.next_batch == u64::MAX {
            return Err(ContinuousBatchError(text("batch id overflow")));
        }
        proof {
            law_promoted_inv(self@);
        }
        self.promote_pending();
        if self.prefer_prefill {
            match self.schedule_prefill() {
                Ok(Some(batch)) => {
                    self.launch(&batch, false);
                    return Ok(Some(batch));
                },
                Ok(None) => {},
                Err(error) => {
                    return Err(error);
                },
            }
        }
        match self.schedule_decode() {
            Ok(Some(batch)) => {
                self.launch(&batch, true);
                return Ok(Some(batch));
            },
            Ok(None) => {},
            Err(error) => {
                return Err(error);
            },
        }
        match self.schedule_prefill() {
            Ok(Some(batch)) => {
                self.launch(&batch, false);
                Ok(Some(batch))
            },
            Ok(None) => Ok(None),
            Err(error) => Err(error),
        }
    }
}

} // verus!
