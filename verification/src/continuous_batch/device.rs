//! Running scheduled batches on a device, one batch at a time.

use crate::continuous_batch::batch::{
    BatchModel, ContinuousBatchConfig, ContinuousBatchError, ContinuousBatchOptions, RowModel,
    ScheduledBatch,
};
use crate::continuous_batch::model::{reservations_of, RequestModel, SchedulerModel};
use crate::continuous_batch::sampling::{
    advanced_samplers, has_sampled_row, row_choice, row_logits, select_error, with_samplers,
};
use crate::continuous_batch::{
    cancelled, setup_error, submitted, CancelledGeneration, ContinuousBatchScheduler,
    ContinuousBatchSnapshot, FinishedGeneration,
};
use crate::generation::sampling::{
    config_error, usable, SamplerModel, SamplingArithmetic, SamplingGenerationConfig,
};
use crate::generation::{
    copy_tokens, fresh_sampler, generation_error, validate_generation, CausalModelLimits,
    GenerationError, GreedyGenerationConfig,
};
use crate::logits::LogitBlock;
use crate::paged_kv::{PagedKvCacheConfig, RequestId};
use crate::text::text;
use vstd::prelude::*;

verus! {

/// A real batched model adapter. Cache forks must isolate subsequent writes.
/// The model consumes scheduled rows together, not by looping over model forwards.
pub trait DeviceBatchModel {
    type Cache;

    /// A pass over `batch` may take the cache from `before` to `after` and end with `result`. A
    /// model that says nothing of its passes may do anything.
    open spec fn forwards(
        &self,
        batch: BatchModel,
        before: Self::Cache,
        after: Self::Cache,
        result: Result<LogitBlock, GenerationError>,
    ) -> bool {
        true
    }

    /// Dropping what a scheduler no longer needs may take the cache from `before` to `after`. A
    /// model that says nothing of it may do anything.
    open spec fn retains(
        &self,
        scheduler: SchedulerModel,
        before: Self::Cache,
        after: Self::Cache,
    ) -> bool {
        true
    }

    fn batch_limits(&self) -> CausalModelLimits;

    fn new_batch_cache(&self, config: PagedKvCacheConfig) -> Self::Cache;

    fn fork_batch_cache(&self, cache: &Self::Cache) -> Self::Cache;

    fn forward_batch(&self, batch: &ScheduledBatch, cache: &mut Self::Cache) -> (result: Result<
        LogitBlock,
        GenerationError,
    >)
        ensures
            self.forwards(batch@, *old(cache), *final(cache), result),
    ;

    /// Called only after device completion, when finished/cancelled pages can be released.
    fn retain_batch_cache(&self, cache: &mut Self::Cache, scheduler: &ContinuousBatchScheduler)
        ensures
            self.retains(scheduler@, *old(cache), *final(cache)),
    ;

    /// Wait until the device has finished what was submitted to it.
    fn sync(&self) -> Result<(), String>;
}

#[derive(Debug)]
pub struct ExecutedBatch {
    pub batch: ScheduledBatch,
    pub generated_token_ids: Vec<i32>,
}

/// Synchronous batch boundaries with asynchronous GPU work inside each forward.
/// The model is borrowed once; weights are shared across all resident requests.
pub struct DeviceBatchExecutor<'a, M: DeviceBatchModel> {
    model: &'a M,
    scheduler: ContinuousBatchScheduler,
    cache: M::Cache,
}

/// A batch, the scheduler that it comes from and the device's part in it.
#[verifier::reject_recursive_types(C)]
pub struct Pass<C> {
    pub limits: CausalModelLimits,
    /// The copy of the cache that the pass wrote to, before and after.
    pub forked: C,
    pub written: C,
    pub answer: Result<LogitBlock, GenerationError>,
    pub synced: Result<(), String>,
}

/// What the device may have done with a batch.
pub open spec fn performed<M: DeviceBatchModel>(
    model: &M,
    batch: BatchModel,
    cache: M::Cache,
    pass: Pass<M::Cache>,
) -> bool {
    &&& call_ensures(M::fork_batch_cache, (model, &cache), pass.forked)
    &&& call_ensures(M::batch_limits, (model,), pass.limits)
    &&& model.forwards(batch, pass.forked, pass.written, pass.answer)
    &&& call_ensures(M::sync, (model,), pass.synced)
}

/// Why the logits of a pass cannot be used.
pub open spec fn pass_error<C>(m: SchedulerModel, batch: BatchModel, pass: Pass<C>) -> Option<
    Seq<char>,
> {
    match pass.answer {
        Err(error) => Some(error.0@),
        Ok(block) => if block@.batch != batch.rows.len() || block@.sequence != 1
            || block@.vocabulary != pass.limits.vocab_size {
            Some("device batch logit shape mismatch"@)
        } else {
            select_error(m, batch.id, block@.values, pass.limits.vocab_size)
        },
    }
}

/// The batch of the next step has a row that is sampled.
pub open spec fn step_draws(m: SchedulerModel) -> bool {
    m.schedule().result matches Ok(Some(batch)) && has_sampled_row(m.schedule().after, batch)
}

/// What one step comes to. A device that did not finish leaves the batch in flight; a pass whose
/// logits cannot be used is rolled back and leaves the cache as it was; any other pass is
/// completed and its cache kept.
pub open spec fn stepped<M: DeviceBatchModel, A: SamplingArithmetic>(
    model: &M,
    arithmetic: &A,
    before: SchedulerModel,
    cache_before: M::Cache,
    result: Result<Option<ExecutedBatch>, ContinuousBatchError>,
    after: SchedulerModel,
    cache_after: M::Cache,
) -> bool {
    let scheduled = before.schedule();
    let m = scheduled.after;
    match scheduled.result {
        Err(message) => after == m && cache_after == cache_before && (result matches Err(error)
            && error.0@ == message),
        Ok(None) => after == m && cache_after == cache_before && result matches Ok(None),
        Ok(Some(batch)) => exists|pass: Pass<M::Cache>| #[trigger]
            performed(model, batch, cache_before, pass) && match pass.synced {
                Err(reason) => after == m && cache_after == cache_before && (result matches Err(
                    error,
                ) && error.0@ == "batch completion: "@ + reason@),
                Ok(_) => match pass_error(m, batch, pass) {
                    Some(message) => after == m.fail_state() && cache_after == cache_before && (
                    result matches Err(error) && error.0@ == message),
                    None => {
                        &&& result matches Ok(Some(executed))
                        &&& executed.batch@ == batch
                        &&& executed.generated_token_ids@.len() == batch.rows.len()
                        &&& forall|i: int|
                            0 <= i < batch.rows.len() ==> row_choice(
                                arithmetic,
                                m.active[batch.rows[i].request_id.0],
                                row_logits(
                                    (pass.answer->Ok_0)@.values,
                                    pass.limits.vocab_size,
                                    i,
                                ),
                                #[trigger] executed.generated_token_ids@[i],
                            )
                        &&& after == with_samplers(
                            m.complete_state(executed.generated_token_ids@),
                            advanced_samplers(m, batch.rows, batch.rows.len() as int),
                        )
                        &&& model.retains(after, pass.written, cache_after)
                    },
                },
            },
    }
}

impl<'a, M: DeviceBatchModel> DeviceBatchExecutor<'a, M> {
    /// The representation is in order.
    pub closed spec fn wf(&self) -> bool {
        self.scheduler.wf()
    }

    /// An executor in order has a scheduler in a sound state, so what holds of sound states holds of
    /// it.
    pub proof fn law_in_order_is_sound(&self)
        requires
            self.wf(),
        ensures
            self.state().inv(),
    {
    }

    /// The state of the scheduler.
    pub closed spec fn state(&self) -> SchedulerModel {
        self.scheduler@
    }

    /// The model that passes run on.
    pub closed spec fn adapter(&self) -> &M {
        self.model
    }

    /// The cache that the next pass starts from.
    pub closed spec fn kept(&self) -> M::Cache {
        self.cache
    }

    pub fn new(
        model: &'a M,
        config: ContinuousBatchConfig,
        kv: PagedKvCacheConfig,
        options: ContinuousBatchOptions,
    ) -> (result: Result<Self, ContinuousBatchError>)
        ensures
            exists|limits: CausalModelLimits| #[trigger]
                call_ensures(M::batch_limits, (model,), limits) && match result {
                    Ok(executor) => {
                        &&& kv.max_sequence_length <= limits.max_sequence_length
                        &&& config.valid() && kv.valid() && options.valid()
                        &&& executor.wf()
                        &&& executor.state() == SchedulerModel::initial(config, kv, options)
                        &&& executor.adapter() == model
                        &&& call_ensures(M::new_batch_cache, (model, kv), executor.kept())
                    },
                    Err(error) => if kv.max_sequence_length > limits.max_sequence_length {
                        error.0@ == "KV sequence limit exceeds model capacity"@
                    } else {
                        !(config.valid() && kv.valid() && options.valid()) && error.0@
                            == setup_error(config, kv, options)
                    },
                },
    {
        let limits = model.batch_limits();
        assert(call_ensures(M::batch_limits, (model,), limits));
        if kv.max_sequence_length > limits.max_sequence_length {
            return Err(ContinuousBatchError(text("KV sequence limit exceeds model capacity")));
        }
        let scheduler = match ContinuousBatchScheduler::with_options(config, kv, options) {
            Ok(scheduler) => scheduler,
            Err(error) => {
                return Err(error);
            },
        };
        Ok(DeviceBatchExecutor { model, scheduler, cache: model.new_batch_cache(kv) })
    }

    pub fn submit(&mut self, prompt: Vec<i32>, generation: GreedyGenerationConfig) -> (result: Result<
        RequestId,
        ContinuousBatchError,
    >)
        requires
            old(self).wf(),
        ensures
            final(self).wf(),
            final(self).adapter() == old(self).adapter(),
            final(self).kept() == old(self).kept(),
            exists|limits: CausalModelLimits| #[trigger]
                call_ensures(M::batch_limits, (old(self).adapter(),), limits)
                    && match generation_error(
                    limits,
                    prompt@,
                    generation.max_new_tokens,
                    generation.eos_token_ids@,
                ) {
                    Some(message) => final(self).state() == old(self).state() && (
                    result matches Err(error) && error.0@ == message),
                    None => submitted(
                        old(self).state(),
                        prompt@,
                        generation.max_new_tokens,
                        generation.eos_token_ids@,
                        None,
                        result,
                        final(self).state(),
                    ),
                },
    {
        match self.validate(&prompt, &generation) {
            Ok(_) => {},
            Err(error) => {
                return Err(error);
            },
        }
        self.scheduler.submit(prompt, generation)
    }

    pub fn submit_sampled(&mut self, prompt: Vec<i32>, generation: SamplingGenerationConfig) -> (result:
        Result<RequestId, ContinuousBatchError>)
        requires
            old(self).wf(),
        ensures
            final(self).wf(),
            final(self).adapter() == old(self).adapter(),
            final(self).kept() == old(self).kept(),
            exists|limits: CausalModelLimits| #[trigger]
                call_ensures(M::batch_limits, (old(self).adapter(),), limits)
                    && match generation_error(
                    limits,
                    prompt@,
                    generation.max_new_tokens,
                    generation.eos_token_ids@,
                ) {
                    Some(message) => final(self).state() == old(self).state() && (
                    result matches Err(error) && error.0@ == message),
                    None => match config_error(generation.sampling) {
                        Some(message) => final(self).state() == old(self).state() && (
                        result matches Err(error) && error.0@ == message),
                        None => exists|sampler: SamplerModel| #[trigger]
                            fresh_sampler(generation.sampling, sampler) && submitted(
                                old(self).state(),
                                prompt@,
                                generation.max_new_tokens,
                                generation.eos_token_ids@,
                                Some(sampler),
                                result,
                                final(self).state(),
                            ),
                    },
                },
    {
        let limits = GreedyGenerationConfig {
            max_new_tokens: generation.max_new_tokens,
            eos_token_ids: copy_tokens(&generation.eos_token_ids),
        };
        match self.validate(&prompt, &limits) {
            Ok(_) => {},
            Err(error) => {
                return Err(error);
            },
        }
        self.scheduler.submit_sampled(prompt, generation)
    }

    fn validate(&self, prompt: &[i32], generation: &GreedyGenerationConfig) -> (result: Result<
        (),
        ContinuousBatchError,
    >)
        ensures
            exists|limits: CausalModelLimits| #[trigger]
                call_ensures(M::batch_limits, (self.adapter(),), limits) && match (
                    result,
                    generation_error(
                        limits,
                        prompt@,
                        generation.max_new_tokens,
                        generation.eos_token_ids@,
                    ),
                ) {
                    (Ok(_), None) => true,
                    (Err(error), Some(message)) => error.0@ == message,
                    _ => false,
                },
    {
        let limits = self.model.batch_limits();
        assert(call_ensures(M::batch_limits, (self.adapter(),), limits));
        match validate_generation(&limits, prompt, generation) {
            Ok(_) => Ok(()),
            Err(error) => Err(ContinuousBatchError(error.0)),
        }
    }

    /// Schedule, run and complete one batch.
    pub fn step<A: SamplingArithmetic>(&mut self, arithmetic: &A) -> (result: Result<
        Option<ExecutedBatch>,
        ContinuousBatchError,
    >)
        requires
            old(self).wf(),
            step_draws(old(self).state()) ==> usable(arithmetic),
        ensures
            final(self).wf(),
            final(self).adapter() == old(self).adapter(),
            stepped(
                old(self).adapter(),
                arithmetic,
                old(self).state(),
                old(self).kept(),
                result,
                final(self).state(),
                final(self).kept(),
            ),
    {
        let batch = match self.scheduler.schedule() {
            Ok(Some(batch)) => batch,
            Ok(None) => {
                return Ok(None);
            },
            Err(error) => {
                return Err(error);
            },
        };
        let ghost m = self.scheduler@;
        let ghost model = batch@;
        assert(m.in_flight == Some(model));
        let mut working = self.model.fork_batch_cache(&self.cache);
        let ghost forked = working;
        let limits = self.model.batch_limits();
        let vocabulary: usize = limits.vocab_size;
        let answer = self.model.forward_batch(&batch, &mut working);
        // An error/panic is not evidence of device completion. A failed sync
        // leaves this batch in flight; its pages cannot be cancelled or reused.
        let synced = self.model.sync();
        let ghost pass = Pass::<M::Cache> { limits, forked, written: working, answer, synced };
        assert(performed(self.model, model, self.cache, pass));
        match synced {
            Ok(_) => {},
            Err(reason) => {
                let mut message = text("batch completion: ");
                message.append(reason.as_str());
                return Err(ContinuousBatchError(message));
            },
        }
        let selection = match answer {
            Err(error) => Err(ContinuousBatchError(error.0)),
            Ok(logits) => if !logits.has_shape(batch.batch_size(), 1, vocabulary) {
                Err(ContinuousBatchError(text("device batch logit shape mismatch")))
            } else {
                self.scheduler.select_batch_tokens(
                    batch.id,
                    logits.values(),
                    vocabulary,
                    arithmetic,
                )
            },
        };
        let selection = match selection {
            Ok(selection) => selection,
            Err(error) => {
                let _ = self.scheduler.fail_batch(batch.id);
                return Err(error);
            },
        };
        proof {
            let rows = model.rows;
            assert forall|i: int|
                0 <= i < selection.tokens@.len() implies #[trigger] selection.tokens@[i] >= 0 by {
                crate::continuous_batch::fenced::lemma_choice_non_negative(
                    arithmetic,
                    m.active[rows[i].request_id.0],
                    row_logits((answer->Ok_0)@.values, vocabulary, i),
                    selection.tokens@[i],
                );
            }
            assert(m.complete_error(batch.id, selection.tokens@) is None);
        }
        match self.scheduler.complete_selected_batch(selection) {
            Ok(generated_token_ids) => {
                self.model.retain_batch_cache(&mut working, &self.scheduler);
                self.cache = working;
                Ok(Some(ExecutedBatch { batch, generated_token_ids }))
            },
            Err(error) => Err(error),
        }
    }

    pub fn cancel(&mut self, id: RequestId) -> (result: Result<
        Option<CancelledGeneration>,
        ContinuousBatchError,
    >)
        requires
            old(self).wf(),
        ensures
            final(self).wf(),
            final(self).adapter() == old(self).adapter(),
            cancelled(old(self).state(), id, result, final(self).state()),
            match result {
                Ok(_) => old(self).adapter().retains(
                    final(self).state(),
                    old(self).kept(),
                    final(self).kept(),
                ),
                Err(_) => final(self).kept() == old(self).kept(),
            },
    {
        match self.scheduler.cancel(id) {
            Ok(found) => {
                self.model.retain_batch_cache(&mut self.cache, &self.scheduler);
                Ok(found)
            },
            Err(error) => Err(error),
        }
    }

    pub fn pop_finished(&mut self) -> (finished: Option<FinishedGeneration>)
        requires
            old(self).wf(),
        ensures
            final(self).wf(),
            final(self).adapter() == old(self).adapter(),
            final(self).kept() == old(self).kept(),
            match finished {
                Some(first) => old(self).state().finished.len() > 0 && first@
                    == old(self).state().finished[0] && final(self).state() == (SchedulerModel {
                    finished: old(self).state().finished.drop_first(),
                    ..old(self).state()
                }),
                None => old(self).state().finished.len() == 0 && final(self).state()
                    == old(self).state(),
            },
    {
        self.scheduler.pop_finished()
    }

    pub fn is_idle(&self) -> (idle: bool)
        requires
            self.wf(),
        ensures
            idle == (self.state().pending.len() == 0 && self.state().active == Map::<
                u64,
                RequestModel,
            >::empty() && self.state().in_flight is None),
    {
        self.scheduler.is_idle()
    }

    pub fn snapshot(&self) -> (snapshot: ContinuousBatchSnapshot)
        requires
            self.wf(),
        ensures
            snapshot.pending_requests == self.state().pending.len(),
            snapshot.active_requests == self.state().active.dom().len(),
            snapshot.has_in_flight_batch == self.state().in_flight is Some,
            snapshot.finished_requests == self.state().finished.len(),
            snapshot.free_kv_pages == self.state().kv.free.len(),
            snapshot.total_kv_pages == self.state().kv.config.num_pages,
    {
        self.scheduler.snapshot()
    }

    pub fn cache(&self) -> (cache: &M::Cache)
        ensures
            *cache == self.kept(),
    {
        &self.cache
    }
}

/// A step that fails, or finds nothing to do, leaves the cache as it was. One that fails before the
/// device came to rest leaves its batch in flight; one that fails afterwards leaves none. A step
/// that completes kept what the device wrote in its pass over the copy, after the device came to
/// rest.
pub proof fn law_steps_keep_the_cache_unless_they_complete<
    M: DeviceBatchModel,
    A: SamplingArithmetic,
>(
    model: &M,
    arithmetic: &A,
    before: SchedulerModel,
    cache_before: M::Cache,
    result: Result<Option<ExecutedBatch>, ContinuousBatchError>,
    after: SchedulerModel,
    cache_after: M::Cache,
)
    requires
        before.inv(),
        stepped(model, arithmetic, before, cache_before, result, after, cache_after),
    ensures
        result is Err || result->Ok_0 is None ==> cache_after == cache_before,
        before.schedule().result matches Ok(Some(_)) ==> exists|pass: Pass<M::Cache>|
            {
                let batch = (before.schedule().result->Ok_0)->0;
                &&& #[trigger] call_ensures(M::fork_batch_cache, (model, &cache_before), pass.forked)
                &&& model.forwards(batch, pass.forked, pass.written, pass.answer)
                &&& call_ensures(M::sync, (model,), pass.synced)
                &&& pass.synced is Err ==> result is Err && after.in_flight == Some(batch)
                &&& pass.synced is Ok ==> after.in_flight is None
                &&& pass.answer is Err ==> result is Err
                &&& result matches Ok(Some(executed)) ==> executed.batch@ == batch && model.retains(
                    after,
                    pass.written,
                    cache_after,
                )
            },
{
    if before.schedule().result matches Ok(Some(_)) {
        let m = before.schedule().after;
        let batch = (before.schedule().result->Ok_0)->0;
        let pass = choose|pass: Pass<M::Cache>| #[trigger]
            performed(model, batch, cache_before, pass) && match pass.synced {
                Err(reason) => after == m && cache_after == cache_before && (result matches Err(
                    error,
                ) && error.0@ == "batch completion: "@ + reason@),
                Ok(_) => match pass_error(m, batch, pass) {
                    Some(message) => after == m.fail_state() && cache_after == cache_before && (
                    result matches Err(error) && error.0@ == message),
                    None => {
                        &&& result matches Ok(Some(executed))
                        &&& executed.batch@ == batch
                        &&& executed.generated_token_ids@.len() == batch.rows.len()
                        &&& after == with_samplers(
                            m.complete_state(executed.generated_token_ids@),
                            advanced_samplers(m, batch.rows, batch.rows.len() as int),
                        )
                        &&& model.retains(after, pass.written, cache_after)
                    },
                },
            };
        assert(performed(model, batch, cache_before, pass));
        assert(m.in_flight == Some(batch));
        if let Ok(Some(executed)) = result {
            let tokens = executed.generated_token_ids@;
            lemma_settled_flight(
                SchedulerModel {
                    kv: m.kv.commit_all(reservations_of(batch.rows)),
                    in_flight: None,
                    ..m
                },
                batch.rows,
                tokens,
            );
            lemma_samplers_flight(
                m.complete_state(tokens),
                advanced_samplers(m, batch.rows, batch.rows.len() as int),
            );
        }
    }
}

proof fn lemma_settled_flight(m: SchedulerModel, rows: Seq<RowModel>, tokens: Seq<i32>)
    ensures
        m.settle_all(rows, tokens).in_flight == m.in_flight,
    decreases rows.len(),
{
    if rows.len() > 0 {
        lemma_settled_flight(m, rows.drop_last(), tokens.drop_last());
    }
}

proof fn lemma_samplers_flight(m: SchedulerModel, samplers: Seq<(RequestId, SamplerModel)>)
    ensures
        with_samplers(m, samplers).in_flight == m.in_flight,
    decreases samplers.len(),
{
    if samplers.len() > 0 {
        lemma_samplers_flight(m, samplers.drop_last());
    }
}

} // verus!
