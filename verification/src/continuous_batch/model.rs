//! The state of a scheduler and what each operation does to it.

use crate::continuous_batch::batch::{
    BatchModel, ContinuousBatchConfig, ContinuousBatchOptions, KvAdmissionPolicy, RowModel,
    ScheduledBatchKind,
};
use crate::generation::sampling::SamplerModel;
use crate::paged_kv::{
    pages_for, AppendModel, KvModel, KvReservationId, PagedKvCacheConfig, RequestId, SequenceModel,
};
use crate::sums::{key_bound, sum_below};
use crate::text::decimal;
use vstd::prelude::*;

verus! {

/// Where an admitted request stands.
#[derive(Debug, Clone, Copy, PartialEq, Eq, Structural)]
pub enum RequestPhase {
    NeedsPrefill,
    AwaitingDecode(i32),
    InFlight(u64),
}

/// A queued request.
#[verifier::ext_equal]
pub struct PendingModel {
    pub id: RequestId,
    pub prompt: Seq<i32>,
    pub max_new_tokens: usize,
    pub eos: Seq<i32>,
    pub sampler: Option<SamplerModel>,
}

/// An admitted request.
#[verifier::ext_equal]
pub struct RequestModel {
    pub prompt: Seq<i32>,
    pub max_new_tokens: usize,
    pub eos: Seq<i32>,
    pub sampler: Option<SamplerModel>,
    pub generated: Seq<i32>,
    pub phase: RequestPhase,
}

/// A finished request.
#[verifier::ext_equal]
pub struct FinishedModel {
    pub request_id: RequestId,
    pub prompt: Seq<i32>,
    pub generated: Seq<i32>,
    pub stopped_on_eos: bool,
}

/// The state of a scheduler.
#[verifier::ext_equal]
pub struct SchedulerModel {
    pub config: ContinuousBatchConfig,
    pub options: ContinuousBatchOptions,
    pub kv: KvModel,
    pub pending: Seq<PendingModel>,
    pub active: Map<u64, RequestModel>,
    pub finished: Seq<FinishedModel>,
    pub in_flight: Option<BatchModel>,
    pub prefer_prefill: bool,
    pub next_request: u64,
    pub next_batch: u64,
}

/// The tokens that the next pass over a request reads.
pub open spec fn next_tokens(request: RequestModel) -> Seq<i32> {
    match request.phase {
        RequestPhase::AwaitingDecode(token) => seq![token],
        _ => request.prompt,
    }
}

/// The pages that a request occupies at its longest. The final selected token is returned, never
/// fed through the model.
pub open spec fn page_budget(prompt_length: int, max_new_tokens: int, block_size: int) -> int {
    pages_for(
        prompt_length + if max_new_tokens > 0 {
            max_new_tokens - 1
        } else {
            0
        },
        block_size,
    )
}

/// The page budget of each admitted request.
pub open spec fn budget_weight(active: Map<u64, RequestModel>, block_size: usize) -> spec_fn(
    u64,
) -> int {
    |k: u64|
        if active.contains_key(k) {
            page_budget(
                active[k].prompt.len() as int,
                active[k].max_new_tokens as int,
                block_size as int,
            )
        } else {
            0
        }
}

/// Strictly ascending numbers.
pub open spec fn ascending_ids(ids: Seq<u64>) -> bool {
    forall|i: int, j: int| 0 <= i < j < ids.len() ==> ids[i] < ids[j]
}

/// `ids` lists, in ascending order, exactly the admitted requests that satisfy `p`.
pub open spec fn lists(
    active: Map<u64, RequestModel>,
    p: spec_fn(u64, RequestModel) -> bool,
    ids: Seq<u64>,
) -> bool {
    &&& ascending_ids(ids)
    &&& forall|k: u64| #[trigger] ids.contains(k) <==> active.contains_key(k) && p(k, active[k])
}

/// The admitted requests that satisfy `p`, in ascending order.
pub open spec fn listing(
    active: Map<u64, RequestModel>,
    p: spec_fn(u64, RequestModel) -> bool,
) -> Seq<u64> {
    choose|ids: Seq<u64>| lists(active, p, ids)
}

/// Two ascending lists of the same numbers are the same list.
pub proof fn lemma_ascending_unique(a: Seq<u64>, b: Seq<u64>)
    requires
        ascending_ids(a),
        ascending_ids(b),
        forall|k: u64| a.contains(k) <==> b.contains(k),
    ensures
        a == b,
    decreases a.len(),
{
    if a.len() == 0 {
        if b.len() > 0 {
            assert(b.contains(b[0]));
        }
        assert(a =~= b);
    } else {
        assert(a.contains(a.last()));
        assert(b.contains(a.last()));
        assert(b.len() > 0);
        assert(b.contains(b.last()));
        assert(a.contains(b.last()));
        let i = choose|i: int| 0 <= i < b.len() && b[i] == a.last();
        let j = choose|j: int| 0 <= j < a.len() && a[j] == b.last();
        if i < b.len() - 1 {
            assert(b[i] < b[b.len() - 1]);
            if j < a.len() - 1 {
                assert(a[j] < a[a.len() - 1]);
            }
        }
        assert(a.last() == b.last());
        let ra = a.drop_last();
        let rb = b.drop_last();
        assert forall|k: u64| ra.contains(k) <==> rb.contains(k) by {
            if ra.contains(k) {
                let x = choose|x: int| 0 <= x < ra.len() && ra[x] == k;
                assert(a[x] == k);
                assert(a[x] < a[a.len() - 1]);
                assert(a.contains(k));
                assert(b.contains(k));
                let y = choose|y: int| 0 <= y < b.len() && b[y] == k;
                assert(y < b.len() - 1);
                assert(rb[y] == k);
            }
            if rb.contains(k) {
                let x = choose|x: int| 0 <= x < rb.len() && rb[x] == k;
                assert(b[x] == k);
                assert(b[x] < b[b.len() - 1]);
                assert(b.contains(k));
                assert(a.contains(k));
                let y = choose|y: int| 0 <= y < a.len() && a[y] == k;
                assert(y < a.len() - 1);
                assert(ra[y] == k);
            }
        }
        lemma_ascending_unique(ra, rb);
        assert(a =~= ra.push(a.last()));
        assert(b =~= rb.push(b.last()));
    }
}

/// A list that satisfies `lists` is the listing.
pub proof fn lemma_listing(
    active: Map<u64, RequestModel>,
    p: spec_fn(u64, RequestModel) -> bool,
    ids: Seq<u64>,
)
    requires
        lists(active, p, ids),
    ensures
        listing(active, p) == ids,
{
    let chosen = listing(active, p);
    assert(lists(active, p, chosen));
    assert forall|k: u64| ids.contains(k) <==> chosen.contains(k) by {}
    lemma_ascending_unique(ids, chosen);
}

/// The row that a reservation and its tokens make.
pub open spec fn row_of(value: AppendModel, token_ids: Seq<i32>) -> RowModel {
    RowModel {
        request_id: value.request_id,
        token_ids,
        start_position: value.start_position,
        context_length: value.context_length,
        block_table: value.block_table,
        reservation_id: value.id,
    }
}

/// Rows reserved for a batch.
#[verifier::ext_equal]
pub struct Gathered {
    pub kv: KvModel,
    pub rows: Seq<RowModel>,
    /// Reservation identifiers ran out.
    pub failed: bool,
}

/// Reserve a row for each listed request in turn, up to `limit` rows; requests without room are
/// passed over.
pub open spec fn gather(
    kv: KvModel,
    active: Map<u64, RequestModel>,
    ids: Seq<u64>,
    limit: int,
) -> Gathered
    decreases ids.len(),
{
    if ids.len() == 0 {
        Gathered { kv, rows: Seq::empty(), failed: false }
    } else {
        let g = gather(kv, active, ids.drop_last(), limit);
        let id = RequestId(ids.last());
        let tokens = next_tokens(active[id.0]);
        let count = tokens.len() as usize;
        if g.failed || g.rows.len() >= limit || !g.kv.can_append(id, count) {
            g
        } else if g.kv.next_reservation == u64::MAX {
            Gathered { failed: true, ..g }
        } else {
            Gathered {
                kv: g.kv.begin_state(id, count),
                rows: g.rows.push(row_of(g.kv.begin_value(id, count), tokens)),
                failed: false,
            }
        }
    }
}

/// Some row belongs to request `k`.
pub open spec fn has_row(rows: Seq<RowModel>, k: u64) -> bool {
    exists|i: int| 0 <= i < rows.len() && (#[trigger] rows[i]).request_id.0 == k
}

/// What scheduling comes to.
#[verifier::ext_equal]
pub struct Scheduled {
    pub result: Result<Option<BatchModel>, Seq<char>>,
    pub after: SchedulerModel,
}

/// The reservations of some rows, last row first.
pub open spec fn reservations_backwards(rows: Seq<RowModel>) -> Seq<KvReservationId> {
    Seq::new(rows.len(), |i: int| rows[rows.len() - 1 - i].reservation_id)
}

/// The reservations of some rows.
pub open spec fn reservations_of(rows: Seq<RowModel>) -> Seq<KvReservationId> {
    Seq::new(rows.len(), |i: int| rows[i].reservation_id)
}

impl SchedulerModel {
    /// A scheduler before any use.
    pub open spec fn initial(
        config: ContinuousBatchConfig,
        kv_config: PagedKvCacheConfig,
        options: ContinuousBatchOptions,
    ) -> SchedulerModel {
        SchedulerModel {
            config,
            options,
            kv: KvModel::initial(kv_config),
            pending: Seq::empty(),
            active: Map::empty(),
            finished: Seq::empty(),
            in_flight: None,
            prefer_prefill: true,
            next_request: 1,
            next_batch: 1,
        }
    }

    /// Whether admission reserves a budget for whole sequences.
    pub open spec fn reserves(self) -> bool {
        self.options.kv_admission == KvAdmissionPolicy::ReserveSequenceCapacity
    }

    /// The pages that a request must be able to have at once for it to be accepted.
    pub open spec fn required_pages(self, prompt_length: int, max_new_tokens: int) -> int {
        if self.reserves() {
            page_budget(prompt_length, max_new_tokens, self.kv.config.block_size as int)
        } else {
            pages_for(prompt_length, self.kv.config.block_size as int)
        }
    }

    /// Why a request is refused.
    pub open spec fn submit_error(
        self,
        prompt: Seq<i32>,
        max_new_tokens: usize,
        eos: Seq<i32>,
    ) -> Option<Seq<char>> {
        let length = prompt.len() + max_new_tokens;
        let required = self.required_pages(prompt.len() as int, max_new_tokens as int);
        if prompt.len() == 0 {
            Some("continuous generation prompt must not be empty"@)
        } else if prompt.len() > self.config.max_batch_tokens {
            Some(
                "prompt has "@ + decimal(prompt.len()) + " tokens, above max_batch_tokens "@
                    + decimal(self.config.max_batch_tokens as nat) + ""@,
            )
        } else if length > usize::MAX {
            Some("request sequence length overflow"@)
        } else if length > self.kv.config.max_sequence_length {
            Some(
                "request length "@ + decimal(length as nat) + " exceeds paged KV capacity "@
                    + decimal(self.kv.config.max_sequence_length as nat) + ""@,
            )
        } else if has_negative(prompt) || has_negative(eos) {
            Some("prompt and EOS token IDs must be non-negative"@)
        } else if max_new_tokens > 0 && required > self.kv.config.num_pages {
            Some(
                "request needs "@ + decimal(required as nat)
                    + " KV pages under the admission policy, but the pool has "@ + decimal(
                    self.kv.config.num_pages as nat,
                ) + ""@,
            )
        } else if max_new_tokens > 0 && (self.options.max_pending_requests matches Some(limit)
            && self.pending.len() >= limit) {
            Some("pending request queue is full"@)
        } else if self.next_request == u64::MAX {
            Some("request id overflow"@)
        } else {
            None
        }
    }

    /// The state with a request accepted: queued, or finished at once where it asks for no token.
    pub open spec fn submit_state(
        self,
        prompt: Seq<i32>,
        max_new_tokens: usize,
        eos: Seq<i32>,
        sampler: Option<SamplerModel>,
    ) -> SchedulerModel {
        let id = RequestId(self.next_request);
        if max_new_tokens == 0 {
            SchedulerModel {
                finished: self.finished.push(
                    FinishedModel {
                        request_id: id,
                        prompt,
                        generated: Seq::empty(),
                        stopped_on_eos: false,
                    },
                ),
                next_request: (self.next_request + 1) as u64,
                ..self
            }
        } else {
            SchedulerModel {
                pending: self.pending.push(
                    PendingModel { id, prompt, max_new_tokens, eos, sampler },
                ),
                next_request: (self.next_request + 1) as u64,
                ..self
            }
        }
    }

    /// The sum of the page budgets of admitted requests.
    pub open spec fn total_budget(self) -> int {
        sum_below(budget_weight(self.active, self.kv.config.block_size), key_bound())
    }

    /// The page budget of the request at the front of the queue.
    pub open spec fn front_budget(self) -> int {
        page_budget(
            self.pending[0].prompt.len() as int,
            self.pending[0].max_new_tokens as int,
            self.kv.config.block_size as int,
        )
    }

    /// Whether the request at the front of the queue can be admitted.
    pub open spec fn can_admit(self) -> bool {
        &&& self.active.dom().len() < self.config.max_active_sequences
        &&& self.pending.len() > 0
        &&& self.reserves() ==> self.total_budget() + self.front_budget()
            <= self.kv.config.num_pages
    }

    /// The state with the request at the front of the queue admitted.
    pub open spec fn promote_front(self) -> SchedulerModel {
        let front = self.pending[0];
        SchedulerModel {
            kv: KvModel {
                sequences: self.kv.sequences.insert(
                    front.id.0,
                    SequenceModel {
                        committed_tokens: 0,
                        pages: Seq::empty(),
                        pending: None,
                    },
                ),
                ..self.kv
            },
            pending: self.pending.drop_first(),
            active: self.active.insert(
                front.id.0,
                RequestModel {
                    prompt: front.prompt,
                    max_new_tokens: front.max_new_tokens,
                    eos: front.eos,
                    sampler: front.sampler,
                    generated: Seq::empty(),
                    phase: RequestPhase::NeedsPrefill,
                },
            ),
            ..self
        }
    }

    /// The state with requests admitted in order of arrival for as long as they fit.
    pub open spec fn promoted(self) -> SchedulerModel
        decreases self.pending.len(),
    {
        if self.can_admit() {
            self.promote_front().promoted()
        } else {
            self
        }
    }

    /// The requests that wait for their next token, oldest first.
    pub open spec fn decode_candidates(self) -> Seq<u64> {
        listing(self.active, |k: u64, r: RequestModel| r.phase is AwaitingDecode)
    }

    /// A request whose prompt could be processed now.
    pub open spec fn prefill_ready(self, k: u64, request: RequestModel) -> bool {
        request.phase is NeedsPrefill && self.kv.can_append(
            RequestId(k),
            request.prompt.len() as usize,
        )
    }

    /// A request whose prompt of `n` tokens could be processed now.
    pub open spec fn ready_of_length(self, n: nat) -> spec_fn(u64, RequestModel) -> bool {
        |k: u64, r: RequestModel| self.prefill_ready(k, r) && r.prompt.len() == n
    }

    /// The requests whose prompt of `n` tokens could be processed now, oldest first.
    pub open spec fn bucket(self, n: nat) -> Seq<u64> {
        listing(self.active, self.ready_of_length(n))
    }

    /// The tokens that a batch of prompts of `n` tokens would process.
    pub open spec fn useful_tokens(self, n: nat) -> int {
        let rows = self.bucket(n).len() as int;
        let most = self.config.max_batch_tokens as int / n as int;
        if rows < most {
            rows * n
        } else {
            most * n
        }
    }

    /// Prompts of `n` tokens fill the batch best; where several lengths fill it equally, those
    /// with the oldest request do.
    pub open spec fn best_length(self, n: nat) -> bool {
        &&& self.bucket(n).len() > 0
        &&& forall|m: nat|
            (#[trigger] self.bucket(m)).len() > 0 ==> self.useful_tokens(m) < self.useful_tokens(n)
                || (self.useful_tokens(m) == self.useful_tokens(n) && self.bucket(n)[0]
                <= self.bucket(m)[0])
    }

    /// The state and batch that come of reserving rows for the listed requests.
    pub open spec fn attempt(self, kind: ScheduledBatchKind, ids: Seq<u64>, limit: int) -> Scheduled {
        let g = gather(self.kv, self.active, ids, limit);
        if g.failed {
            Scheduled {
                result: Err("paged KV reservation id overflow"@),
                after: SchedulerModel {
                    kv: KvModel { next_reservation: g.kv.next_reservation, ..self.kv },
                    ..self
                },
            }
        } else if g.rows.len() == 0 {
            Scheduled { result: Ok(None), after: self }
        } else {
            Scheduled {
                result: Ok(Some(BatchModel { id: self.next_batch, kind, rows: g.rows })),
                after: SchedulerModel {
                    kv: g.kv,
                    active: self.active.map_entries(
                        |k: u64, r: RequestModel|
                            if has_row(g.rows, k) {
                                RequestModel { phase: RequestPhase::InFlight(self.next_batch), ..r }
                            } else {
                                r
                            },
                    ),
                    next_batch: (self.next_batch + 1) as u64,
                    ..self
                },
            }
        }
    }

    /// Batching the next tokens of running requests.
    pub open spec fn decode_attempt(self) -> Scheduled {
        self.attempt(
            ScheduledBatchKind::Decode,
            self.decode_candidates(),
            self.config.max_batch_tokens as int,
        )
    }

    /// Batching prompts of one length.
    pub open spec fn prefill_attempt(self) -> Scheduled {
        if exists|n: nat| self.best_length(n) {
            let n = choose|n: nat| self.best_length(n);
            self.attempt(
                ScheduledBatchKind::Prefill,
                self.bucket(n),
                self.config.max_batch_tokens as int / n as int,
            )
        } else {
            Scheduled { result: Ok(None), after: self }
        }
    }

    /// The state with a batch launched.
    pub open spec fn launch(self, batch: BatchModel, prefer_prefill: bool) -> SchedulerModel {
        SchedulerModel { in_flight: Some(batch), prefer_prefill, ..self }
    }

    /// Building the next batch: admit, then take prompts and next tokens in alternation, each only
    /// where there is one to take.
    pub open spec fn schedule(self) -> Scheduled {
        if self.in_flight is Some {
            Scheduled {
                result: Err(
                    "batch "@ + decimal((self.in_flight->0).id as nat) + " is still in flight"@,
                ),
                after: self,
            }
        } else if self.next_batch == u64::MAX {
            Scheduled { result: Err("batch id overflow"@), after: self }
        } else {
            let m = self.promoted();
            let prefill = m.prefill_attempt();
            let decode = m.decode_attempt();
            if m.prefer_prefill && prefill.result is Err {
                prefill
            } else if m.prefer_prefill && prefill.result->Ok_0 is Some {
                Scheduled {
                    after: prefill.after.launch((prefill.result->Ok_0)->0, false),
                    ..prefill
                }
            } else if decode.result is Err {
                decode
            } else if decode.result->Ok_0 is Some {
                Scheduled {
                    after: decode.after.launch((decode.result->Ok_0)->0, true),
                    ..decode
                }
            } else if prefill.result is Err {
                prefill
            } else if prefill.result->Ok_0 is Some {
                Scheduled {
                    after: prefill.after.launch((prefill.result->Ok_0)->0, false),
                    ..prefill
                }
            } else {
                Scheduled { result: Ok(None), after: m }
            }
        }
    }

    /// Why a batch cannot be completed or failed under the identifier given.
    pub open spec fn batch_error(self, batch_id: u64) -> Option<Seq<char>> {
        match self.in_flight {
            None => Some("batch "@ + decimal(batch_id as nat) + " is not in flight"@),
            Some(batch) => if batch.id != batch_id {
                Some(
                    "batch "@ + decimal(batch_id as nat) + " cannot complete while batch "@
                        + decimal(batch.id as nat) + " is in flight"@,
                )
            } else {
                None
            },
        }
    }

    /// Why the results of a batch are refused.
    pub open spec fn complete_error(self, batch_id: u64, tokens: Seq<i32>) -> Option<Seq<char>> {
        let rows = (self.in_flight->0).rows;
        if self.batch_error(batch_id) is Some {
            self.batch_error(batch_id)
        } else if tokens.len() != rows.len() {
            Some(
                "batch "@ + decimal(batch_id as nat) + " has "@ + decimal(rows.len())
                    + " rows but "@ + decimal(tokens.len()) + " generated tokens were supplied"@,
            )
        } else if has_negative(tokens) {
            Some("generated token IDs must be non-negative"@)
        } else {
            None
        }
    }

    /// The state with one row's token applied: the request goes on, or finishes and gives its
    /// pages back.
    pub open spec fn settle(self, row: RowModel, token: i32) -> SchedulerModel {
        let id = row.request_id;
        let request = self.active[id.0];
        let generated = request.generated.push(token);
        let stopped = request.eos.contains(token);
        if stopped || generated.len() >= request.max_new_tokens {
            SchedulerModel {
                kv: self.kv.remove_state(id),
                active: self.active.remove(id.0),
                finished: self.finished.push(
                    FinishedModel {
                        request_id: id,
                        prompt: request.prompt,
                        generated,
                        stopped_on_eos: stopped,
                    },
                ),
                ..self
            }
        } else {
            SchedulerModel {
                active: self.active.insert(
                    id.0,
                    RequestModel { generated, phase: RequestPhase::AwaitingDecode(token), ..request },
                ),
                ..self
            }
        }
    }

    /// The state with the tokens of several rows applied in turn.
    pub open spec fn settle_all(self, rows: Seq<RowModel>, tokens: Seq<i32>) -> SchedulerModel
        decreases rows.len(),
    {
        if rows.len() == 0 {
            self
        } else {
            self.settle_all(rows.drop_last(), tokens.drop_last()).settle(rows.last(), tokens.last())
        }
    }

    /// The state with a batch completed.
    pub open spec fn complete_state(self, tokens: Seq<i32>) -> SchedulerModel {
        let rows = (self.in_flight->0).rows;
        SchedulerModel {
            kv: self.kv.commit_all(reservations_of(rows)),
            in_flight: None,
            ..self
        }.settle_all(rows, tokens)
    }

    /// The phase that a row's request had before the batch.
    pub open spec fn phase_before(kind: ScheduledBatchKind, row: RowModel) -> RequestPhase {
        match kind {
            ScheduledBatchKind::Prefill => RequestPhase::NeedsPrefill,
            ScheduledBatchKind::Decode => RequestPhase::AwaitingDecode(row.token_ids[0]),
        }
    }

    /// The state with a batch rolled back.
    pub open spec fn fail_state(self) -> SchedulerModel {
        let batch = self.in_flight->0;
        SchedulerModel {
            kv: self.kv.cancel_all(reservations_backwards(batch.rows)),
            active: restored(self.active, batch.kind, batch.rows),
            in_flight: None,
            ..self
        }
    }

    /// The place of a request in the queue.
    pub open spec fn pending_index(self, id: RequestId) -> Option<int> {
        if exists|i: int| self.queued_at(id, i) {
            Some(choose|i: int| self.queued_at(id, i))
        } else {
            None
        }
    }

    /// Request `id` stands at place `i` of the queue.
    pub open spec fn queued_at(self, id: RequestId, i: int) -> bool {
        0 <= i < self.pending.len() && self.pending[i].id == id
    }
}

/// Requests with the phases they had before a batch of the given rows.
pub open spec fn restored(
    active: Map<u64, RequestModel>,
    kind: ScheduledBatchKind,
    rows: Seq<RowModel>,
) -> Map<u64, RequestModel>
    decreases rows.len(),
{
    if rows.len() == 0 {
        active
    } else {
        let rest = restored(active, kind, rows.drop_last());
        let id = rows.last().request_id.0;
        rest.insert(
            id,
            RequestModel { phase: SchedulerModel::phase_before(kind, rows.last()), ..rest[id] },
        )
    }
}

/// Some token is negative.
pub open spec fn has_negative(tokens: Seq<i32>) -> bool {
    exists|i: int| 0 <= i < tokens.len() && #[trigger] tokens[i] < 0
}

} // verus!
