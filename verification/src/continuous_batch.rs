//! Continuous batching of paged inference requests: admission, scheduling, completion and
//! cancellation.

use crate::continuous_batch::batch::{
    ContinuousBatchConfig, ContinuousBatchError, ContinuousBatchOptions, KvAdmissionPolicy,
    ScheduledBatch,
};
use crate::continuous_batch::model::{
    has_negative, page_budget, FinishedModel, PendingModel, RequestModel, RequestPhase,
    SchedulerModel,
};
use crate::continuous_batch::soundness::{
    law_drop_active_inv, law_initial_inv, law_submit_inv, law_unqueue_inv,
};
use crate::generation::sampling::{SamplerModel, TokenSampler};
use crate::generation::GreedyGenerationConfig;
use crate::ordered::{lemma_entry, OrderedMap};
use crate::paged_kv::{ceil_div, PagedKvCacheConfig, PagedKvCacheManager, RequestId};
use crate::text::{decimal, text, with_numbers};
use std::collections::VecDeque;
use vstd::prelude::*;

pub mod batch;
pub mod completion;
pub mod device;
pub mod endings;
pub mod fenced;
pub mod histories;
pub mod laws;
pub mod model;
pub mod prefill;
pub mod row_laws;
pub mod sampling;
pub mod scheduling;
pub mod soundness;

verus! {

/// A finished request.
#[derive(Debug, Clone, PartialEq, Eq)]
pub struct FinishedGeneration {
    pub request_id: RequestId,
    pub prompt_token_ids: Vec<i32>,
    pub generated_token_ids: Vec<i32>,
    pub stopped_on_eos: bool,
}

impl View for FinishedGeneration {
    type V = FinishedModel;

    open spec fn view(&self) -> FinishedModel {
        FinishedModel {
            request_id: self.request_id,
            prompt: self.prompt_token_ids@,
            generated: self.generated_token_ids@,
            stopped_on_eos: self.stopped_on_eos,
        }
    }
}

/// Returned directly by `cancel`; never mixed into the normal completion queue.
#[derive(Debug, Clone, PartialEq, Eq)]
pub struct CancelledGeneration {
    pub request_id: RequestId,
    pub prompt_token_ids: Vec<i32>,
    pub generated_token_ids: Vec<i32>,
}

#[derive(Debug, Clone, PartialEq, Eq)]
pub struct ContinuousBatchSnapshot {
    pub pending_requests: usize,
    pub active_requests: usize,
    pub has_in_flight_batch: bool,
    pub finished_requests: usize,
    pub free_kv_pages: usize,
    pub total_kv_pages: usize,
}

/// A queued request.
#[derive(Debug)]
pub struct PendingRequest {
    pub id: RequestId,
    pub prompt_token_ids: Vec<i32>,
    pub generation: GreedyGenerationConfig,
    pub sampler: Option<TokenSampler>,
}

/// The state of a request's sampler, if it has one.
pub open spec fn sampler_model(sampler: Option<TokenSampler>) -> Option<SamplerModel> {
    match sampler {
        Some(sampler) => Some(sampler@),
        None => None,
    }
}

impl View for PendingRequest {
    type V = PendingModel;

    open spec fn view(&self) -> PendingModel {
        PendingModel {
            id: self.id,
            prompt: self.prompt_token_ids@,
            max_new_tokens: self.generation.max_new_tokens,
            eos: self.generation.eos_token_ids@,
            sampler: sampler_model(self.sampler),
        }
    }
}

/// An admitted request.
#[derive(Debug)]
pub struct ActiveRequest {
    pub prompt_token_ids: Vec<i32>,
    pub generation: GreedyGenerationConfig,
    pub sampler: Option<TokenSampler>,
    pub generated_token_ids: Vec<i32>,
    pub phase: RequestPhase,
}

impl View for ActiveRequest {
    type V = RequestModel;

    open spec fn view(&self) -> RequestModel {
        RequestModel {
            prompt: self.prompt_token_ids@,
            max_new_tokens: self.generation.max_new_tokens,
            eos: self.generation.eos_token_ids@,
            sampler: sampler_model(self.sampler),
            generated: self.generated_token_ids@,
            phase: self.phase,
        }
    }
}

/// Metadata scheduler for paged Llama inference. It allows prefill requests to
/// enter while older requests are decoding, batches all ready one-token decode
/// rows, and commits KV positions only after the execution result succeeds.
#[derive(Debug)]
pub struct ContinuousBatchScheduler {
    pub config: ContinuousBatchConfig,
    pub options: ContinuousBatchOptions,
    pub kv_cache: PagedKvCacheManager,
    pub pending: VecDeque<PendingRequest>,
    pub active: OrderedMap<ActiveRequest>,
    pub finished: VecDeque<FinishedGeneration>,
    pub in_flight: Option<ScheduledBatch>,
    pub prefer_prefill: bool,
    pub next_request: u64,
    pub next_batch: u64,
}

/// Queued requests, over mathematical sequences.
pub open spec fn pending_models(pending: Seq<PendingRequest>) -> Seq<PendingModel> {
    Seq::new(pending.len(), |i: int| pending[i]@)
}

/// Finished requests, over mathematical sequences.
pub open spec fn finished_models(finished: Seq<FinishedGeneration>) -> Seq<FinishedModel> {
    Seq::new(finished.len(), |i: int| finished[i]@)
}

/// Admitted requests, over mathematical sequences.
pub open spec fn active_models(active: Map<u64, ActiveRequest>) -> Map<u64, RequestModel> {
    active.map_values(|r: ActiveRequest| r@)
}

impl View for ContinuousBatchScheduler {
    type V = SchedulerModel;

    open spec fn view(&self) -> SchedulerModel {
        SchedulerModel {
            config: self.config,
            options: self.options,
            kv: self.kv_cache@,
            pending: pending_models(self.pending@),
            active: active_models(self.active@),
            finished: finished_models(self.finished@),
            in_flight: match self.in_flight {
                Some(batch) => Some(batch@),
                None => None,
            },
            prefer_prefill: self.prefer_prefill,
            next_request: self.next_request,
            next_batch: self.next_batch,
        }
    }
}

/// Whether some token is negative.
pub(crate) fn any_negative(tokens: &[i32]) -> (found: bool)
    ensures
        found == has_negative(tokens@),
{
    let mut i: usize = 0;
    while i < tokens.len()
        invariant
            i <= tokens@.len(),
            forall|j: int| 0 <= j < i ==> #[trigger] tokens@[j] >= 0,
        decreases tokens@.len() - i,
    {
        if tokens[i] < 0 {
            assert(tokens@[i as int] < 0);
            return true;
        }
        i += 1;
    }
    false
}

/// The pages that a request occupies at its longest.
pub fn request_page_budget(
    prompt_length: usize,
    max_new_tokens: usize,
    block_size: usize,
) -> (pages: usize)
    requires
        block_size > 0,
        prompt_length + max_new_tokens <= usize::MAX,
    ensures
        pages == page_budget(prompt_length as int, max_new_tokens as int, block_size as int),
{
    ceil_div(prompt_length + max_new_tokens.saturating_sub(1), block_size)
}

impl ContinuousBatchScheduler {
    /// The representation is in order and the state is one that operations lead to.
    pub open spec fn wf(&self) -> bool {
        &&& self.kv_cache.wf()
        &&& self.active.wf()
        &&& self@.inv()
    }

    pub fn new(config: ContinuousBatchConfig, kv_config: PagedKvCacheConfig) -> (result: Result<
        Self,
        ContinuousBatchError,
    >)
        ensures
            result is Ok <==> config.valid() && kv_config.valid(),
            result matches Ok(scheduler) ==> scheduler.wf() && scheduler@
                == SchedulerModel::initial(
                config,
                kv_config,
                (ContinuousBatchOptions {
                    max_pending_requests: None,
                    kv_admission: KvAdmissionPolicy::OnDemand,
                }),
            ),
            result matches Err(error) ==> error.0@ == setup_error(
                config,
                kv_config,
                (ContinuousBatchOptions {
                    max_pending_requests: None,
                    kv_admission: KvAdmissionPolicy::OnDemand,
                }),
            ),
    {
        Self::with_options(config, kv_config, ContinuousBatchOptions::default())
    }

    /// Configure bounded queuing and optional full-sequence KV admission.
    pub fn with_options(
        config: ContinuousBatchConfig,
        kv_config: PagedKvCacheConfig,
        options: ContinuousBatchOptions,
    ) -> (result: Result<Self, ContinuousBatchError>)
        ensures
            result is Ok <==> config.valid() && kv_config.valid() && options.valid(),
            result matches Ok(scheduler) ==> scheduler.wf() && scheduler@
                == SchedulerModel::initial(config, kv_config, options),
            result matches Err(error) ==> error.0@ == setup_error(config, kv_config, options),
    {
        match config.validate() {
            Ok(_) => {},
            Err(error) => {
                return Err(error);
            },
        }
        match options.validate() {
            Ok(_) => {},
            Err(error) => {
                return Err(error);
            },
        }
        let kv_cache = match PagedKvCacheManager::new(kv_config) {
            Ok(cache) => cache,
            Err(error) => {
                return Err(ContinuousBatchError::from(error));
            },
        };
        let scheduler = ContinuousBatchScheduler {
            config,
            options,
            kv_cache,
            pending: VecDeque::new(),
            active: OrderedMap::new(),
            finished: VecDeque::new(),
            in_flight: None,
            prefer_prefill: true,
            next_request: 1,
            next_batch: 1,
        };
        proof {
            let start = SchedulerModel::initial(config, kv_config, options);
            assert(scheduler@.active =~= start.active);
            assert(scheduler@ =~= start);
            law_initial_inv(config, kv_config, options);
        }
        Ok(scheduler)
    }

    pub fn submit(&mut self, prompt_token_ids: Vec<i32>, generation: GreedyGenerationConfig) -> (result:
        Result<RequestId, ContinuousBatchError>)
        requires
            old(self).wf(),
        ensures
            final(self).wf(),
            submitted(
                old(self)@,
                prompt_token_ids@,
                generation.max_new_tokens,
                generation.eos_token_ids@,
                None,
                result,
                final(self)@,
            ),
    {
        self.submit_with_sampler(prompt_token_ids, generation, None)
    }

    pub(crate) fn submit_with_sampler(
        &mut self,
        prompt_token_ids: Vec<i32>,
        generation: GreedyGenerationConfig,
        sampler: Option<TokenSampler>,
    ) -> (result: Result<RequestId, ContinuousBatchError>)
        requires
            old(self).wf(),
        ensures
            final(self).wf(),
            submitted(
                old(self)@,
                prompt_token_ids@,
                generation.max_new_tokens,
                generation.eos_token_ids@,
                sampler_model(sampler),
                result,
                final(self)@,
            ),
    {
        let ghost before = self@;
        let ghost prompt = prompt_token_ids@;
        let ghost eos = generation.eos_token_ids@;
        let length: usize = prompt_token_ids.len();
        let max_new_tokens: usize = generation.max_new_tokens;
        if length == 0 {
            return Err(
                ContinuousBatchError(text("continuous generation prompt must not be empty")),
            );
        }
        if length > self.config.max_batch_tokens {
            return Err(
                ContinuousBatchError(
                    with_numbers(
                        "prompt has ",
                        length as u64,
                        " tokens, above max_batch_tokens ",
                        self.config.max_batch_tokens as u64,
                        "",
                    ),
                ),
            );
        }
        let total_length: usize = match length.checked_add(max_new_tokens) {
            Some(total) => total,
            None => {
                return Err(ContinuousBatchError(text("request sequence length overflow")));
            },
        };
        let kv = self.kv_cache.config();
        if total_length > kv.max_sequence_length {
            return Err(
                ContinuousBatchError(
                    with_numbers(
                        "request length ",
                        total_length as u64,
                        " exceeds paged KV capacity ",
                        kv.max_sequence_length as u64,
                        "",
                    ),
                ),
            );
        }
        if any_negative(&prompt_token_ids) || any_negative(&generation.eos_token_ids) {
            return Err(
                ContinuousBatchError(text("prompt and EOS token IDs must be non-negative")),
            );
        }
        if max_new_tokens > 0 {
            let required_pages: usize = match self.options.kv_admission {
                KvAdmissionPolicy::OnDemand => ceil_div(length, kv.block_size),
                KvAdmissionPolicy::ReserveSequenceCapacity => request_page_budget(
                    length,
                    max_new_tokens,
                    kv.block_size,
                ),
            };
            if required_pages > kv.num_pages {
                return Err(
                    ContinuousBatchError(
                        with_numbers(
                            "request needs ",
                            required_pages as u64,
                            " KV pages under the admission policy, but the pool has ",
                            kv.num_pages as u64,
                            "",
                        ),
                    ),
                );
            }
            if let Some(limit) = self.options.max_pending_requests {
                if self.pending.len() >= limit {
                    return Err(ContinuousBatchError(text("pending request queue is full")));
                }
            }
        }
        let id = RequestId(self.next_request);
        let next_request: u64 = match self.next_request.checked_add(1) {
            Some(next) => next,
            None => {
                return Err(ContinuousBatchError(text("request id overflow")));
            },
        };
        self.next_request = next_request;
        let ghost state = sampler_model(sampler);
        if max_new_tokens == 0 {
            self.finished.push_back(
                FinishedGeneration {
                    request_id: id,
                    prompt_token_ids,
                    generated_token_ids: Vec::new(),
                    stopped_on_eos: false,
                },
            );
        } else {
            self.pending.push_back(PendingRequest { id, prompt_token_ids, generation, sampler });
        }
        proof {
            let after = before.submit_state(prompt, max_new_tokens, eos, state);
            assert(self@.finished =~= after.finished);
            assert(self@.pending =~= after.pending);
            assert(self@ =~= after);
            law_submit_inv(before, prompt, max_new_tokens, eos, state);
        }
        Ok(id)
    }

    pub fn pop_finished(&mut self) -> (finished: Option<FinishedGeneration>)
        requires
            old(self).wf(),
        ensures
            final(self).wf(),
            match finished {
                Some(first) => old(self)@.finished.len() > 0 && first@ == old(self)@.finished[0]
                    && final(self)@ == (SchedulerModel {
                    finished: old(self)@.finished.drop_first(),
                    ..old(self)@
                }),
                None => old(self)@.finished.len() == 0 && final(self)@ == old(self)@,
            },
    {
        let ghost before = self@;
        let first = self.finished.pop_front();
        proof {
            if first is Some {
                let after = SchedulerModel { finished: before.finished.drop_first(), ..before };
                assert(self@.finished =~= after.finished);
                assert(self@ =~= after);
                lemma_finished_irrelevant(before, after);
            } else {
                assert(self@ =~= before);
            }
        }
        first
    }

    pub fn snapshot(&self) -> (snapshot: ContinuousBatchSnapshot)
        requires
            self.wf(),
        ensures
            snapshot.pending_requests == self@.pending.len(),
            snapshot.active_requests == self@.active.dom().len(),
            snapshot.has_in_flight_batch == self@.in_flight is Some,
            snapshot.finished_requests == self@.finished.len(),
            snapshot.free_kv_pages == self@.kv.free.len(),
            snapshot.total_kv_pages == self@.kv.config.num_pages,
    {
        assert(self@.active.dom() =~= self.active@.dom());
        ContinuousBatchSnapshot {
            pending_requests: self.pending.len(),
            active_requests: self.active.len(),
            has_in_flight_batch: self.in_flight.is_some(),
            finished_requests: self.finished.len(),
            free_kv_pages: self.kv_cache.free_page_count(),
            total_kv_pages: self.kv_cache.config().num_pages,
        }
    }

    pub fn kv_cache(&self) -> (cache: &PagedKvCacheManager)
        requires
            self.wf(),
        ensures
            cache@ == self@.kv,
            cache.wf(),
    {
        &self.kv_cache
    }

    /// True when no queued, active or in-flight work remains. Completed results
    /// can still be waiting in `pop_finished`.
    pub fn is_idle(&self) -> (idle: bool)
        requires
            self.wf(),
        ensures
            idle == (self@.pending.len() == 0 && self@.active == Map::<u64, RequestModel>::empty()
                && self@.in_flight is None),
    {
        proof {
            if self.active.entries@.len() == 0 {
                assert(self@.active =~= Map::<u64, RequestModel>::empty());
            } else {
                lemma_entry(self.active.entries@, 0);
                assert(self@.active.contains_key(self.active.entries@[0].0));
            }
        }
        self.pending.len() == 0 && self.active.is_empty() && self.in_flight.is_none()
    }

    /// Cancel a queued or ready request and reclaim its pages. Unknown and
    /// already-finished IDs return None. In-flight requests return an error:
    /// first wait for device work to stop, then complete/fail the owning batch.
    /// Reusing pages while a kernel is still writing them would be unsafe.
    pub fn cancel(&mut self, request_id: RequestId) -> (result: Result<
        Option<CancelledGeneration>,
        ContinuousBatchError,
    >)
        requires
            old(self).wf(),
        ensures
            final(self).wf(),
            cancelled(old(self)@, request_id, result, final(self)@),
    {
        let ghost before = self@;
        let mut i: usize = 0;
        while i < self.pending.len()
            invariant
                self.wf(),
                self@ == before,
                *self == *old(self),
                i <= self.pending@.len(),
                forall|j: int| 0 <= j < i ==> !before.queued_at(request_id, j),
            decreases self.pending@.len() - i,
        {
            if self.pending[i].id.0 == request_id.0 {
                assert(before.queued_at(request_id, i as int)) by {
                    assert(before.pending[i as int] == self.pending@[i as int]@);
                }
                let request = self.pending.remove(i);
                proof {
                    let place = choose|j: int| before.queued_at(request_id, j);
                    assert(before.queued_at(request_id, place));
                    if place < i {
                        assert(before.pending[place].id.0 < before.pending[i as int].id.0);
                    } else if place > i {
                        assert(before.pending[i as int].id.0 < before.pending[place].id.0);
                    }
                    let after = SchedulerModel {
                        pending: before.pending.remove(i as int),
                        ..before
                    };
                    assert(self@.pending =~= after.pending);
                    assert(self@ =~= after);
                    law_unqueue_inv(before, i as int);
                }
                match request {
                    Some(request) => {
                        return Ok(
                            Some(
                                CancelledGeneration {
                                    request_id,
                                    prompt_token_ids: request.prompt_token_ids,
                                    generated_token_ids: Vec::new(),
                                },
                            ),
                        );
                    },
                    None => {
                        return Ok(None);
                    },
                }
            }
            assert(!before.queued_at(request_id, i as int)) by {
                assert(before.pending[i as int] == self.pending@[i as int]@);
            }
            i += 1;
        }
        assert(before.pending_index(request_id) is None);
        let phase: RequestPhase = match self.active.get(request_id.0) {
            Some(request) => request.phase,
            None => {
                return Ok(None);
            },
        };
        if let RequestPhase::InFlight(batch_id) = phase {
            return Err(
                ContinuousBatchError(
                    with_numbers(
                        "request ",
                        request_id.0,
                        " belongs to in-flight batch ",
                        batch_id,
                        "; finish device work before cancelling",
                    ),
                ),
            );
        }
        proof {
            law_drop_active_inv(before, request_id);
        }
        // Fallible cleanup happens before removing the request metadata.
        match self.kv_cache.remove_sequence(request_id) {
            Ok(_) => {},
            Err(error) => {
                return Err(ContinuousBatchError::from(error));
            },
        }
        let request = self.active.remove(request_id.0);
        proof {
            let after = SchedulerModel {
                kv: before.kv.remove_state(request_id),
                active: before.active.remove(request_id.0),
                ..before
            };
            assert(self@.active =~= after.active);
            assert(self@ =~= after);
        }
        match request {
            Some(request) => Ok(
                Some(
                    CancelledGeneration {
                        request_id,
                        prompt_token_ids: request.prompt_token_ids,
                        generated_token_ids: request.generated_token_ids,
                    },
                ),
            ),
            None => Ok(None),
        }
    }
}

/// Why a scheduler cannot be set up.
pub open spec fn setup_error(
    config: ContinuousBatchConfig,
    kv_config: PagedKvCacheConfig,
    options: ContinuousBatchOptions,
) -> Seq<char> {
    if !config.valid() {
        "continuous batch limits must be non-zero"@
    } else if !options.valid() {
        "max_pending_requests must be positive when set"@
    } else if kv_config.block_size == 0 || kv_config.num_pages == 0
        || kv_config.max_sequence_length == 0 {
        "paged KV block_size, num_pages, and max_sequence_length must be non-zero"@
    } else {
        "paged KV physical page count exceeds u32 page-table capacity"@
    }
}

/// A request was accepted under the next identifier, or refused with nothing changed.
pub open spec fn submitted(
    before: SchedulerModel,
    prompt: Seq<i32>,
    max_new_tokens: usize,
    eos: Seq<i32>,
    sampler: Option<SamplerModel>,
    result: Result<RequestId, ContinuousBatchError>,
    after: SchedulerModel,
) -> bool {
    match (result, before.submit_error(prompt, max_new_tokens, eos)) {
        (Ok(id), None) => id == RequestId(before.next_request) && after == before.submit_state(
            prompt,
            max_new_tokens,
            eos,
            sampler,
        ),
        (Err(error), Some(message)) => error.0@ == message && after == before,
        _ => false,
    }
}

/// A request was taken out of the queue or out of the admitted ones, with its pages returned; a
/// request in flight was refused; an unknown one changed nothing.
pub open spec fn cancelled(
    before: SchedulerModel,
    id: RequestId,
    result: Result<Option<CancelledGeneration>, ContinuousBatchError>,
    after: SchedulerModel,
) -> bool {
    match before.pending_index(id) {
        Some(i) => {
            &&& result matches Ok(Some(c))
            &&& c.request_id == id
            &&& c.prompt_token_ids@ == before.pending[i].prompt
            &&& c.generated_token_ids@.len() == 0
            &&& after == (SchedulerModel { pending: before.pending.remove(i), ..before })
        },
        None => if !before.active.contains_key(id.0) {
            result matches Ok(None) && after == before
        } else {
            let request = before.active[id.0];
            match request.phase {
                RequestPhase::InFlight(batch_id) => {
                    &&& after == before
                    &&& result matches Err(error)
                    &&& error.0@ == "request "@ + decimal(id.0 as nat)
                        + " belongs to in-flight batch "@ + decimal(batch_id as nat)
                        + "; finish device work before cancelling"@
                },
                _ => {
                    &&& result matches Ok(Some(c))
                    &&& c.request_id == id
                    &&& c.prompt_token_ids@ == request.prompt
                    &&& c.generated_token_ids@ == request.generated
                    &&& after == (SchedulerModel {
                        kv: before.kv.remove_state(id),
                        active: before.active.remove(id.0),
                        ..before
                    })
                },
            }
        },
    }
}

/// Finished requests do not bear on the invariant.
proof fn lemma_finished_irrelevant(m: SchedulerModel, after: SchedulerModel)
    requires
        m.inv(),
        after == (SchedulerModel { finished: after.finished, ..m }),
    ensures
        after.inv(),
{
    assert forall|k: u64| #[trigger] after.active.contains_key(k) implies after.active_sound(k) by {
        assert(m.active_sound(k));
    }
    assert forall|i: int|
        #![trigger after.pending[i]]
        0 <= i < after.pending.len() implies after.pending_sound(i) by {
        assert(m.pending_sound(i));
    }
    if let Some(batch) = after.in_flight {
        assert forall|i: int|
            #![trigger batch.rows[i]]
            0 <= i < batch.rows.len() implies after.row_sound(batch, i) by {
            assert(m.row_sound(batch, i));
        }
    }
}

} // verus!
