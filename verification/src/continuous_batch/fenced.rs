//! Opt-in synchronization gate around the metadata scheduler.

use crate::continuous_batch::batch::{ContinuousBatchError, ScheduledBatch};
use crate::continuous_batch::model::{RequestModel, SchedulerModel};
use crate::continuous_batch::sampling::{
    advanced_samplers, draws, row_choice, row_logits, sampler_states, select_error, with_samplers,
};
use crate::continuous_batch::completion::limit_changed;
use crate::continuous_batch::{
    cancelled, CancelledGeneration, ContinuousBatchScheduler, ContinuousBatchSnapshot,
    FinishedGeneration,
};
use crate::generation::sampling::{
    config_error, usable, SamplerModel, SamplingArithmetic, SamplingGenerationConfig,
};
use crate::generation::{fresh_sampler, GreedyGenerationConfig};
use crate::paged_kv::RequestId;
use crate::runtime::{
    checked_argmax, healthy_row, row_fault, RuntimeError, RuntimeErrorKind, WorkState,
};
use crate::text::text;
use std::mem::ManuallyDrop;
use vstd::prelude::*;
use vstd::slice::slice_subrange;

verus! {

/// The answer of something that may not be finished yet.
#[derive(Debug, Clone, Copy, PartialEq, Eq)]
pub enum Poll<T> {
    Ready(T),
    Pending,
}

impl<T> Poll<T> {
    pub fn is_pending(&self) -> (pending: bool)
        ensures
            pending == (self is Pending),
    {
        match self {
            Poll::Ready(_) => false,
            Poll::Pending => true,
        }
    }

    pub fn is_ready(&self) -> (ready: bool)
        ensures
            ready == (self is Ready),
    {
        match self {
            Poll::Ready(_) => true,
            Poll::Pending => false,
        }
    }
}

/// Adapter-owned completion fence. Ready(Ok) MUST mean every device stream and
/// host readback touching this batch is complete. A timeout returns Pending,
/// not success. Errors do not establish that device writes have stopped.
pub trait BatchFence: Sized {
    /// Asking the fence may take it from `before` to `after` and be answered with `answer`. A
    /// fence that says nothing of its answers may give any.
    open spec fn answers(before: Self, after: Self, answer: Poll<Result<(), RuntimeError>>) -> bool {
        true
    }

    fn poll_complete(&mut self) -> (answer: Poll<Result<(), RuntimeError>>)
        ensures
            Self::answers(*old(self), *final(self), answer),
    ;
}

#[derive(Debug, Clone)]
pub struct BatchLaunchFailure {
    pub error: RuntimeError,
    pub work: WorkState,
    pub committed_cache_intact: bool,
}

/// A fence that is watched until its batch is resolved. A fence that has not reported completion
/// owns device allocations that may still be written to, so it is never dropped.
enum FenceState<F> {
    Running(ManuallyDrop<F>),
    Completed(F),
}

/// A tracked batch, its fence as it stands, and whether the fence has reported completion.
#[verifier::ext_equal]
pub struct FenceModel<F> {
    pub id: u64,
    pub fence: F,
    pub completed: bool,
}

/// Where a fenced scheduler stands with its batch.
#[verifier::ext_equal]
pub struct GateModel<F> {
    pub scheduler: SchedulerModel,
    pub fence: Option<FenceModel<F>>,
    pub quarantined: bool,
}

/// A fence-gated scheduler, not a CUDA/HIP event implementation. Physical KV
/// storage remains owned by the adapter. Once quarantined, do not recycle that
/// storage: tear down its isolated worker process or prove quiescence externally.
/// No mutable access to the wrapped scheduler is exposed to bypass the fence.
pub struct FencedBatchScheduler<F> {
    scheduler: ContinuousBatchScheduler,
    fence: Option<(u64, FenceState<F>)>,
    quarantined: bool,
}

impl<F> View for FencedBatchScheduler<F> {
    type V = GateModel<F>;

    closed spec fn view(&self) -> GateModel<F> {
        GateModel {
            scheduler: self.scheduler@,
            fence: match self.fence {
                Some((id, FenceState::Running(held))) => Some(
                    FenceModel { id, fence: held@, completed: false },
                ),
                Some((id, FenceState::Completed(fence))) => Some(
                    FenceModel { id, fence, completed: true },
                ),
                None => None,
            },
            quarantined: self.quarantined,
        }
    }
}

impl<F> GateModel<F> {
    /// Exactly the batch in flight is watched, unless the scheduler is quarantined.
    pub open spec fn sound(self) -> bool {
        &&& self.scheduler.inv()
        &&& !self.quarantined ==> match self.fence {
            Some(watched) => self.scheduler.in_flight is Some && (self.scheduler.in_flight->0).id
                == watched.id,
            None => self.scheduler.in_flight is None,
        }
    }
}

/// The error of a quarantined gate.
pub open spec fn quarantine_error(error: RuntimeError) -> bool {
    error.kind is DeviceLost && error.message@
        == "scheduler is quarantined; device work may still be in flight"@
}

/// A refusal of the scheduler, as a runtime error.
pub open spec fn refusal(error: RuntimeError, message: Seq<char>) -> bool {
    error.kind is InvalidInput && error.message@ == message
}

/// A launch that failed before anything could have been written, or after everything stopped, with
/// the cache intact, may be rolled back.
pub open spec fn recoverable(failure: BatchLaunchFailure) -> bool {
    &&& !(failure.work is Unknown)
    &&& failure.committed_cache_intact
    &&& !(failure.error.kind is DeviceLost || failure.error.kind is Synchronization
        || failure.error.kind is WorkerPanicked || failure.error.kind is Internal)
}

/// The outcome of launching the next batch.
pub open spec fn launched<F, S: FnOnce(&ScheduledBatch) -> Result<F, BatchLaunchFailure>>(
    before: GateModel<F>,
    submit: S,
    result: Result<Option<ScheduledBatch>, RuntimeError>,
    after: GateModel<F>,
) -> bool {
    let scheduled = before.scheduler.schedule();
    if before.quarantined {
        after == before && (result matches Err(error) && quarantine_error(error))
    } else {
        match scheduled.result {
            Err(message) => after == (GateModel { scheduler: scheduled.after, ..before }) && (
            result matches Err(error) && refusal(error, message)),
            Ok(None) => after == (GateModel { scheduler: scheduled.after, ..before })
                && result matches Ok(None),
            Ok(Some(model)) => exists|
                batch: ScheduledBatch,
                answer: Result<F, BatchLaunchFailure>,
            |
                #![trigger call_ensures(submit, (&batch,), answer)]
                batch@ == model && call_ensures(submit, (&batch,), answer) && match answer {
                    Ok(fence) => after == (GateModel {
                        scheduler: scheduled.after,
                        fence: Some(FenceModel { id: model.id, fence, completed: false }),
                        quarantined: false,
                    }) && (result matches Ok(Some(b)) && b@ == model),
                    Err(failure) => (result matches Err(error) && error == failure.error)
                        && after == (if recoverable(failure) {
                        GateModel { scheduler: scheduled.after.fail_state(), ..before }
                    } else {
                        GateModel {
                            scheduler: scheduled.after,
                            quarantined: true,
                            ..before
                        }
                    }),
                },
        }
    }
}

/// What an answer of the fence of the tracked batch comes to: while it is pending nothing changes,
/// completion is kept, and an error quarantines the scheduler.
pub open spec fn answered<F>(
    before: GateModel<F>,
    asked: F,
    answer: Poll<Result<(), RuntimeError>>,
    result: Result<Poll<()>, RuntimeError>,
    after: GateModel<F>,
) -> bool {
    let watched = FenceModel { fence: asked, ..before.fence->0 };
    match answer {
        Poll::Pending => (result matches Ok(Poll::Pending)) && after == (GateModel {
            fence: Some(watched),
            ..before
        }),
        Poll::Ready(Ok(_)) => (result matches Ok(Poll::Ready(_))) && after == (GateModel {
            fence: Some(FenceModel { completed: true, ..watched }),
            ..before
        }),
        Poll::Ready(Err(error)) => result == Err::<Poll<()>, RuntimeError>(error) && after == (
        GateModel { fence: Some(watched), quarantined: true, ..before }),
    }
}

/// The fence of batch `batch_id` was asked, or had reported completion before.
pub open spec fn polled<F: BatchFence>(
    before: GateModel<F>,
    batch_id: u64,
    result: Result<Poll<()>, RuntimeError>,
    after: GateModel<F>,
) -> bool {
    if before.quarantined {
        after == before && (result matches Err(error) && quarantine_error(error))
    } else {
        match before.fence {
            None => after == before && (result matches Err(error) && refusal(
                error,
                "no tracked device batch"@,
            )),
            Some(watched) => if watched.id != batch_id {
                after == before && (result matches Err(error) && refusal(
                    error,
                    "stale or wrong batch fence ID"@,
                ))
            } else if watched.completed {
                after == before && (result matches Ok(Poll::Ready(_)))
            } else {
                exists|asked: F, answer: Poll<Result<(), RuntimeError>>| #[trigger]
                    F::answers(watched.fence, asked, answer) && answered(
                        before,
                        asked,
                        answer,
                        result,
                        after,
                    )
            },
        }
    }
}

/// Borrows what a `ManuallyDrop` holds, for change: `DerefMut::deref_mut` of std.
#[verifier::external_body]
fn borrow_held<F>(held: &mut ManuallyDrop<F>) -> (inner: &mut F)
    ensures
        *inner == old(held)@,
        final(held)@ == *final(inner),
{
    &mut *held
}

impl<F: BatchFence> FencedBatchScheduler<F> {
    /// The representation is in order and the batch in flight is watched.
    pub closed spec fn wf(&self) -> bool {
        &&& self.scheduler.wf()
        &&& self@.sound()
    }

    /// A scheduler in order is sound, so what holds of sound states holds of it.
    pub proof fn law_in_order_is_sound(&self)
        requires
            self.wf(),
        ensures
            self@.sound(),
    {
    }

    pub fn new(scheduler: ContinuousBatchScheduler) -> (result: Result<Self, RuntimeError>)
        requires
            scheduler.wf(),
        ensures
            match result {
                Ok(gate) => scheduler@.in_flight is None && gate.wf() && gate@ == (GateModel::<F> {
                    scheduler: scheduler@,
                    fence: None,
                    quarantined: false,
                }),
                Err(error) => scheduler@.in_flight is Some && refusal(
                    error,
                    "cannot wrap a scheduler with untracked in-flight work"@,
                ),
            },
    {
        if scheduler.snapshot().has_in_flight_batch {
            return Err(
                RuntimeError::invalid("cannot wrap a scheduler with untracked in-flight work"),
            );
        }
        Ok(FencedBatchScheduler { scheduler, fence: None, quarantined: false })
    }

    fn ensure_healthy(&self) -> (result: Result<(), RuntimeError>)
        ensures
            match result {
                Ok(_) => !self@.quarantined,
                Err(error) => self@.quarantined && quarantine_error(error),
            },
    {
        if self.quarantined {
            Err(
                RuntimeError::new(
                    RuntimeErrorKind::DeviceLost,
                    text("scheduler is quarantined; device work may still be in flight"),
                ),
            )
        } else {
            Ok(())
        }
    }

    fn map_error(error: ContinuousBatchError) -> (mapped: RuntimeError)
        ensures
            refusal(mapped, error.0@),
    {
        RuntimeError::new(RuntimeErrorKind::InvalidInput, error.0)
    }

    pub fn submit(&mut self, prompt: Vec<i32>, generation: GreedyGenerationConfig) -> (result: Result<
        RequestId,
        RuntimeError,
    >)
        requires
            old(self).wf(),
        ensures
            final(self).wf(),
            gated_submit(
                old(self)@,
                prompt@,
                generation.max_new_tokens,
                generation.eos_token_ids@,
                None,
                result,
                final(self)@,
            ),
    {
        match self.ensure_healthy() {
            Ok(_) => {},
            Err(error) => {
                return Err(error);
            },
        }
        match self.scheduler.submit(prompt, generation) {
            Ok(id) => Ok(id),
            Err(error) => Err(Self::map_error(error)),
        }
    }

    pub fn submit_sampled(&mut self, prompt: Vec<i32>, generation: SamplingGenerationConfig) -> (result:
        Result<RequestId, RuntimeError>)
        requires
            old(self).wf(),
        ensures
            final(self).wf(),
            if old(self)@.quarantined {
                final(self)@ == old(self)@ && (result matches Err(error) && quarantine_error(error))
            } else {
                match config_error(generation.sampling) {
                    Some(message) => final(self)@ == old(self)@ && (result matches Err(error)
                        && refusal(error, message)),
                    None => exists|sampler: SamplerModel| #[trigger]
                        fresh_sampler(generation.sampling, sampler) && gated_submit(
                            old(self)@,
                            prompt@,
                            generation.max_new_tokens,
                            generation.eos_token_ids@,
                            Some(sampler),
                            result,
                            final(self)@,
                        ),
                }
            },
    {
        match self.ensure_healthy() {
            Ok(_) => {},
            Err(error) => {
                return Err(error);
            },
        }
        match self.scheduler.submit_sampled(prompt, generation) {
            Ok(id) => Ok(id),
            Err(error) => Err(Self::map_error(error)),
        }
    }

    /// A launch panic leaves the scheduler quarantined, even if caught by its caller.
    /// A recoverable error is rollback-safe only before submission, or after
    /// verified completion AND with all previously committed KV entries intact.
    pub fn launch<S: FnOnce(&ScheduledBatch) -> Result<F, BatchLaunchFailure>>(
        &mut self,
        submit: S,
    ) -> (result: Result<Option<ScheduledBatch>, RuntimeError>)
        requires
            old(self).wf(),
            forall|batch: &ScheduledBatch| call_requires(submit, (batch,)),
        ensures
            final(self).wf(),
            launched::<F, S>(old(self)@, submit, result, final(self)@),
    {
        match self.ensure_healthy() {
            Ok(_) => {},
            Err(error) => {
                return Err(error);
            },
        }
        let ghost before = self@;
        let batch = match self.scheduler.schedule() {
            Ok(Some(batch)) => batch,
            Ok(None) => {
                proof {
                    lemma_schedule_without_batch(before.scheduler);
                }
                return Ok(None);
            },
            Err(error) => {
                proof {
                    lemma_schedule_without_batch(before.scheduler);
                }
                return Err(Self::map_error(error));
            },
        };
        proof {
            lemma_schedule_launches(before.scheduler);
        }
        self.quarantined = true;
        match submit(&batch) {
            Ok(fence) => {
                self.fence = Some((batch.id, FenceState::Running(ManuallyDrop::new(fence))));
                self.quarantined = false;
                Ok(Some(batch))
            },
            Err(failure) => {
                let fatal = match failure.error.kind() {
                    RuntimeErrorKind::DeviceLost => true,
                    RuntimeErrorKind::Synchronization => true,
                    RuntimeErrorKind::WorkerPanicked => true,
                    RuntimeErrorKind::Internal => true,
                    _ => false,
                };
                let stopped = match failure.work {
                    WorkState::Unknown => false,
                    _ => true,
                };
                assert(recoverable(failure) == (stopped && failure.committed_cache_intact
                    && !fatal));
                if stopped && failure.committed_cache_intact && !fatal {
                    let _ = self.scheduler.fail_batch(batch.id);
                    self.quarantined = false;
                }
                Err(failure.error)
            },
        }
    }

    fn poll_fence(&mut self, batch_id: u64) -> (result: Result<Poll<()>, RuntimeError>)
        requires
            old(self).wf(),
        ensures
            final(self).wf(),
            polled(old(self)@, batch_id, result, final(self)@),
    {
        match self.ensure_healthy() {
            Ok(_) => {},
            Err(error) => {
                return Err(error);
            },
        }
        let mut answer: Option<Poll<Result<(), RuntimeError>>> = None;
        let ghost before = self@;
        match &mut self.fence {
            None => {
                return Err(RuntimeError::invalid("no tracked device batch"));
            },
            Some((id, state)) => {
                if *id != batch_id {
                    return Err(RuntimeError::invalid("stale or wrong batch fence ID"));
                }
                match state {
                    FenceState::Completed(_) => {
                        return Ok(Poll::Ready(()));
                    },
                    FenceState::Running(held) => {
                        // A panic while polling is not evidence of completion either.
                        self.quarantined = true;
                        answer = Some(borrow_held(held).poll_complete());
                    },
                }
            },
        }
        let ghost asked = (self@.fence->0).fence;
        assert(F::answers((before.fence->0).fence, asked, answer->0));
        match answer {
            Some(Poll::Ready(Ok(_))) => {
                self.quarantined = false;
                self.fence = match self.fence.take() {
                    Some((id, FenceState::Running(held))) => Some(
                        (id, FenceState::Completed(ManuallyDrop::into_inner(held))),
                    ),
                    other => other,
                };
                let result: Result<Poll<()>, RuntimeError> = Ok(Poll::Ready(()));
                assert(answered(before, asked, answer->0, result, self@));
                result
            },
            Some(Poll::Ready(Err(error))) => {
                let result: Result<Poll<()>, RuntimeError> = Err(error);
                assert(answered(before, asked, answer->0, result, self@));
                result
            },
            _ => {
                self.quarantined = false;
                let result: Result<Poll<()>, RuntimeError> = Ok(Poll::Pending);
                assert(answered(before, asked, answer->0, result, self@));
                result
            },
        }
    }
}

/// A request went through a healthy gate to the scheduler.
pub open spec fn gated_submit<F>(
    before: GateModel<F>,
    prompt: Seq<i32>,
    max_new_tokens: usize,
    eos: Seq<i32>,
    sampler: Option<SamplerModel>,
    result: Result<RequestId, RuntimeError>,
    after: GateModel<F>,
) -> bool {
    if before.quarantined {
        after == before && (result matches Err(error) && quarantine_error(error))
    } else {
        match before.scheduler.submit_error(prompt, max_new_tokens, eos) {
            None => result == Ok::<RequestId, RuntimeError>(
                RequestId(before.scheduler.next_request),
            ) && after == (GateModel {
                scheduler: before.scheduler.submit_state(prompt, max_new_tokens, eos, sampler),
                ..before
            }),
            Some(message) => after == before && (result matches Err(error) && refusal(
                error,
                message,
            )),
        }
    }
}

/// Scheduling that launches nothing leaves the batch in flight as it was.
proof fn lemma_schedule_without_batch(m: SchedulerModel)
    requires
        m.inv(),
        !(m.schedule().result matches Ok(Some(_))),
    ensures
        m.schedule().after.in_flight == m.in_flight,
{
    crate::continuous_batch::soundness::law_promoted_inv(m);
}

/// Scheduling that launches a batch puts it in flight.
proof fn lemma_schedule_launches(m: SchedulerModel)
    requires
        m.inv(),
        m.schedule().result matches Ok(Some(_)),
    ensures
        m.schedule().after.in_flight == Some((m.schedule().result->Ok_0)->0),
        m.in_flight is None,
{
}

/// Some row of logits is not healthy.
pub open spec fn unhealthy_row(logits: Seq<u32>, vocabulary: usize, rows: nat) -> bool {
    exists|i: int| 0 <= i < rows && !healthy_row(#[trigger] row_logits(logits, vocabulary, i))
}

/// An error reports the first row of logits that is not healthy.
pub open spec fn reports_row(
    logits: Seq<u32>,
    vocabulary: usize,
    rows: nat,
    error: RuntimeError,
) -> bool {
    error.kind is Numerical && exists|i: int|
        0 <= i < rows && !healthy_row(#[trigger] row_logits(logits, vocabulary, i)) && (forall|
            j: int,
        |
            0 <= j < i ==> healthy_row(#[trigger] row_logits(logits, vocabulary, j)))
            && error.message@ == row_fault(row_logits(logits, vocabulary, i))
}

/// What completing a batch comes to once its fence has reported completion.
pub open spec fn completed_with<F, A: SamplingArithmetic>(
    before: GateModel<F>,
    batch_id: u64,
    logits: Seq<u32>,
    vocabulary: usize,
    arithmetic: &A,
    result: Result<Poll<Vec<i32>>, RuntimeError>,
    after: GateModel<F>,
) -> bool {
    let m = before.scheduler;
    let rows = (m.in_flight->0).rows;
    if vocabulary == 0 || rows.len() * vocabulary != logits.len() {
        after == before && (result matches Err(error) && refusal(
            error,
            "logit shape does not match the fenced batch"@,
        ))
    } else if unhealthy_row(logits, vocabulary, rows.len()) {
        after == before && (result matches Err(error) && reports_row(
            logits,
            vocabulary,
            rows.len(),
            error,
        ))
    } else {
        match select_error(m, batch_id, logits, vocabulary) {
            Some(message) => after == before && (result matches Err(error) && refusal(
                error,
                message,
            )),
            None => {
                &&& result matches Ok(Poll::Ready(tokens))
                &&& tokens@.len() == rows.len()
                &&& forall|i: int|
                    0 <= i < rows.len() ==> row_choice(
                        arithmetic,
                        m.active[rows[i].request_id.0],
                        row_logits(logits, vocabulary, i),
                        #[trigger] tokens@[i],
                    )
                &&& after == (GateModel {
                    scheduler: with_samplers(
                        m.complete_state(tokens@),
                        advanced_samplers(m, rows, rows.len() as int),
                    ),
                    fence: None,
                    ..before
                })
            },
        }
    }
}

/// The fence is asked first; only where it reports completion is anything done with the logits.
pub open spec fn gated_completion<F: BatchFence, A: SamplingArithmetic>(
    before: GateModel<F>,
    batch_id: u64,
    logits: Seq<u32>,
    vocabulary: usize,
    arithmetic: &A,
    result: Result<Poll<Vec<i32>>, RuntimeError>,
    after: GateModel<F>,
) -> bool {
    exists|answer: Result<Poll<()>, RuntimeError>, middle: GateModel<F>| #[trigger]
        polled(before, batch_id, answer, middle) && match answer {
            Err(error) => after == middle && (result matches Err(e) && e == error),
            Ok(Poll::Pending) => after == middle && result matches Ok(Poll::Pending),
            Ok(Poll::Ready(_)) => completed_with(
                middle,
                batch_id,
                logits,
                vocabulary,
                arithmetic,
                result,
                after,
            ),
        }
}

/// The fence is asked first; only where it reports completion is the batch rolled back.
pub open spec fn gated_rollback<F: BatchFence>(
    before: GateModel<F>,
    batch_id: u64,
    result: Result<Poll<()>, RuntimeError>,
    after: GateModel<F>,
) -> bool {
    exists|answer: Result<Poll<()>, RuntimeError>, middle: GateModel<F>| #[trigger]
        polled(before, batch_id, answer, middle) && match answer {
            Err(error) => after == middle && (result matches Err(e) && e == error),
            Ok(Poll::Pending) => after == middle && result matches Ok(Poll::Pending),
            Ok(Poll::Ready(_)) => result matches Ok(Poll::Ready(_)) && after == (GateModel {
                scheduler: middle.scheduler.fail_state(),
                fence: None,
                ..middle
            }),
        }
}

/// Tokens that were chosen for rows are not negative.
pub proof fn lemma_choice_non_negative<A: SamplingArithmetic>(
    arithmetic: &A,
    request: RequestModel,
    row: Seq<u32>,
    token: i32,
)
    requires
        row_choice(arithmetic, request, row, token),
    ensures
        token >= 0,
{
    match request.sampler {
        Some(sampler) => {
            let slice = choose|slice: &[u32]|
                slice@ == row && #[trigger] crate::generation::sampling::sampled(
                    arithmetic,
                    sampler,
                    slice,
                    token,
                );
            crate::generation::sampling::law_sampled_stays_in_vocabulary(
                arithmetic,
                sampler,
                slice,
                token,
            );
        },
        None => {},
    }
}

impl<F: BatchFence> FencedBatchScheduler<F> {
    /// Check every row of logits.
    fn check_rows(logits: &[u32], rows: usize, vocabulary: usize) -> (result: Result<
        (),
        RuntimeError,
    >)
        requires
            vocabulary > 0,
            rows * vocabulary == logits@.len(),
        ensures
            match result {
                Ok(_) => !unhealthy_row(logits@, vocabulary, rows as nat),
                Err(error) => reports_row(logits@, vocabulary, rows as nat, error),
            },
    {
        let total: usize = logits.len();
        let mut row: usize = 0;
        while row < rows
            invariant
                vocabulary > 0,
                rows * vocabulary == logits@.len(),
                total == logits@.len(),
                row <= rows,
                forall|i: int|
                    0 <= i < row ==> healthy_row(#[trigger] row_logits(logits@, vocabulary, i)),
            decreases rows - row,
        {
            proof {
                assert(0 <= row * vocabulary <= (row + 1) * vocabulary <= rows * vocabulary)
                    by (nonlinear_arith)
                    requires
                        row + 1 <= rows,
                        vocabulary > 0,
                ;
                assert((row + 1) * vocabulary == row * vocabulary + vocabulary)
                    by (nonlinear_arith);
            }
            let from: usize = row * vocabulary;
            let values = slice_subrange(logits, from, from + vocabulary);
            assert(values@ == row_logits(logits@, vocabulary, row as int));
            match checked_argmax(values) {
                Ok(_) => {},
                Err(error) => {
                    return Err(error);
                },
            }
            row += 1;
        }
        Ok(())
    }

    /// Validate host logits, preview request-local RNGs, then atomically commit.
    /// Neither a pending event nor invalid logits advances RNG/cache positions.
    pub fn try_complete_logits<A: SamplingArithmetic>(
        &mut self,
        batch_id: u64,
        logits: &[u32],
        vocabulary: usize,
        arithmetic: &A,
    ) -> (result: Result<Poll<Vec<i32>>, RuntimeError>)
        requires
            old(self).wf(),
            draws(old(self)@.scheduler, batch_id) ==> usable(arithmetic),
        ensures
            final(self).wf(),
            gated_completion(
                old(self)@,
                batch_id,
                logits@,
                vocabulary,
                arithmetic,
                result,
                final(self)@,
            ),
    {
        let answer = self.poll_fence(batch_id);
        let ghost middle = self@;
        assert(polled(old(self)@, batch_id, answer, middle));
        match answer {
            Err(error) => {
                return Err(error);
            },
            Ok(poll) => {
                if poll.is_pending() {
                    return Ok(Poll::Pending);
                }
            },
        }
        let rows: usize = match &self.scheduler.in_flight {
            Some(batch) => batch.batch_size(),
            None => 0,
        };
        let total: usize = logits.len();
        let shaped = vocabulary != 0 && match rows.checked_mul(vocabulary) {
            Some(expected) => expected == total,
            None => false,
        };
        if !shaped {
            return Err(RuntimeError::invalid("logit shape does not match the fenced batch"));
        }
        match Self::check_rows(logits, rows, vocabulary) {
            Ok(_) => {},
            Err(error) => {
                return Err(error);
            },
        }
        let selected = match self.scheduler.select_batch_tokens(
            batch_id,
            logits,
            vocabulary,
            arithmetic,
        ) {
            Ok(selected) => selected,
            Err(error) => {
                return Err(Self::map_error(error));
            },
        };
        proof {
            let m = middle.scheduler;
            let models = (m.in_flight->0).rows;
            assert forall|i: int| 0 <= i < selected.tokens@.len() implies #[trigger] selected.tokens@[i]
                >= 0 by {
                lemma_choice_non_negative(
                    arithmetic,
                    m.active[models[i].request_id.0],
                    row_logits(logits@, vocabulary, i),
                    selected.tokens@[i],
                );
            }
            assert(m.complete_error(batch_id, selected.tokens@) is None);
            crate::continuous_batch::soundness::law_complete_inv(m, batch_id, selected.tokens@);
            crate::continuous_batch::sampling::lemma_samplers_inv(
                m.complete_state(selected.tokens@),
                sampler_states(selected.samplers@),
            );
        }
        match self.scheduler.complete_selected_batch(selected) {
            Ok(tokens) => {
                self.fence = None;
                Ok(Poll::Ready(tokens))
            },
            Err(error) => Err(Self::map_error(error)),
        }
    }

    /// Roll back only an append-only failed tail after its completion fence.
    /// The adapter must not have modified any earlier committed KV entries.
    pub fn try_rollback(&mut self, batch_id: u64) -> (result: Result<Poll<()>, RuntimeError>)
        requires
            old(self).wf(),
        ensures
            final(self).wf(),
            gated_rollback(old(self)@, batch_id, result, final(self)@),
    {
        let answer = self.poll_fence(batch_id);
        assert(polled(old(self)@, batch_id, answer, self@));
        match answer {
            Err(error) => {
                return Err(error);
            },
            Ok(poll) => {
                if poll.is_pending() {
                    return Ok(Poll::Pending);
                }
            },
        }
        let _ = self.scheduler.fail_batch(batch_id);
        self.fence = None;
        Ok(Poll::Ready(()))
    }

    pub fn cancel(&mut self, id: RequestId) -> (result: Result<
        Option<CancelledGeneration>,
        RuntimeError,
    >)
        requires
            old(self).wf(),
        ensures
            final(self).wf(),
            if old(self)@.quarantined {
                final(self)@ == old(self)@ && (result matches Err(error) && quarantine_error(error))
            } else {
                exists|inner: Result<Option<CancelledGeneration>, ContinuousBatchError>|
                    #[trigger] cancelled(
                        old(self)@.scheduler,
                        id,
                        inner,
                        final(self)@.scheduler,
                    ) && final(self)@ == (GateModel {
                        scheduler: final(self)@.scheduler,
                        ..old(self)@
                    }) && match inner {
                        Ok(found) => result == Ok::<
                            Option<CancelledGeneration>,
                            RuntimeError,
                        >(found),
                        Err(error) => result matches Err(e) && refusal(e, error.0@),
                    }
            },
    {
        match self.ensure_healthy() {
            Ok(_) => {},
            Err(error) => {
                return Err(error);
            },
        }
        let inner = self.scheduler.cancel(id);
        proof {
            assert(cancelled(old(self)@.scheduler, id, inner, self@.scheduler));
        }
        match inner {
            Ok(found) => Ok(found),
            Err(error) => Err(Self::map_error(error)),
        }
    }

    pub fn set_batch_token_limit(&mut self, limit: usize) -> (result: Result<(), RuntimeError>)
        requires
            old(self).wf(),
        ensures
            final(self).wf(),
            if old(self)@.quarantined {
                final(self)@ == old(self)@ && (result matches Err(error) && quarantine_error(error))
            } else {
                exists|inner: Result<(), ContinuousBatchError>| #[trigger]
                    limit_changed(
                        old(self)@.scheduler,
                        limit,
                        inner,
                        final(self)@.scheduler,
                    ) && final(self)@ == (GateModel {
                        scheduler: final(self)@.scheduler,
                        ..old(self)@
                    }) && match inner {
                        Ok(_) => result is Ok,
                        Err(error) => result matches Err(e) && refusal(e, error.0@),
                    }
            },
    {
        match self.ensure_healthy() {
            Ok(_) => {},
            Err(error) => {
                return Err(error);
            },
        }
        let inner = self.scheduler.set_batch_token_limit(limit);
        assert(limit_changed(old(self)@.scheduler, limit, inner, self@.scheduler));
        match inner {
            Ok(_) => Ok(()),
            Err(error) => Err(Self::map_error(error)),
        }
    }

    pub fn is_quarantined(&self) -> (quarantined: bool)
        ensures
            quarantined == self@.quarantined,
    {
        self.quarantined
    }

    pub fn snapshot(&self) -> (snapshot: ContinuousBatchSnapshot)
        requires
            self.wf(),
        ensures
            snapshot.pending_requests == self@.scheduler.pending.len(),
            snapshot.active_requests == self@.scheduler.active.dom().len(),
            snapshot.has_in_flight_batch == self@.scheduler.in_flight is Some,
            snapshot.finished_requests == self@.scheduler.finished.len(),
            snapshot.free_kv_pages == self@.scheduler.kv.free.len(),
            snapshot.total_kv_pages == self@.scheduler.kv.config.num_pages,
    {
        self.scheduler.snapshot()
    }

    pub fn pop_finished(&mut self) -> (finished: Option<FinishedGeneration>)
        requires
            old(self).wf(),
        ensures
            final(self).wf(),
            match finished {
                Some(first) => old(self)@.scheduler.finished.len() > 0 && first@
                    == old(self)@.scheduler.finished[0] && final(self)@ == (GateModel {
                    scheduler: (SchedulerModel {
                        finished: old(self)@.scheduler.finished.drop_first(),
                        ..old(self)@.scheduler
                    }),
                    ..old(self)@
                }),
                None => old(self)@.scheduler.finished.len() == 0 && final(self)@ == old(self)@,
            },
    {
        self.scheduler.pop_finished()
    }
}

/// While the fence of a batch has not reported completion, neither completing nor rolling back
/// changes the scheduler: no page is reclaimed and no position or random stream advances.
pub proof fn law_unfinished_work_is_untouched<F: BatchFence, A: SamplingArithmetic>(
    before: GateModel<F>,
    batch_id: u64,
    logits: Seq<u32>,
    vocabulary: usize,
    arithmetic: &A,
    completion: Result<Poll<Vec<i32>>, RuntimeError>,
    after_completion: GateModel<F>,
    rollback: Result<Poll<()>, RuntimeError>,
    after_rollback: GateModel<F>,
)
    requires
        gated_completion(
            before,
            batch_id,
            logits,
            vocabulary,
            arithmetic,
            completion,
            after_completion,
        ),
        gated_rollback(before, batch_id, rollback, after_rollback),
    ensures
        !(completion matches Ok(Poll::Ready(_))) ==> after_completion.scheduler == before.scheduler,
        !(rollback matches Ok(Poll::Ready(_))) ==> after_rollback.scheduler == before.scheduler,
        before.quarantined ==> after_completion == before && after_rollback == before,
{
}

/// A fence that can only answer that it is pending holds its batch back: completing and rolling
/// back both report that, and the scheduler stays as it is.
pub proof fn law_pending_fence_holds_back<F: BatchFence, A: SamplingArithmetic>(
    before: GateModel<F>,
    batch_id: u64,
    logits: Seq<u32>,
    vocabulary: usize,
    arithmetic: &A,
    completion: Result<Poll<Vec<i32>>, RuntimeError>,
    after_completion: GateModel<F>,
    rollback: Result<Poll<()>, RuntimeError>,
    after_rollback: GateModel<F>,
)
    requires
        !before.quarantined,
        before.fence matches Some(watched) && watched.id == batch_id && !watched.completed,
        forall|asked: F, answer: Poll<Result<(), RuntimeError>>| #[trigger]
            F::answers((before.fence->0).fence, asked, answer) ==> answer is Pending,
        gated_completion(
            before,
            batch_id,
            logits,
            vocabulary,
            arithmetic,
            completion,
            after_completion,
        ),
        gated_rollback(before, batch_id, rollback, after_rollback),
    ensures
        completion matches Ok(Poll::Pending),
        after_completion.scheduler == before.scheduler,
        rollback matches Ok(Poll::Pending),
        after_rollback.scheduler == before.scheduler,
{
}

/// A fence that can only answer that everything is complete lets its batch through: it is rolled
/// back where that is asked, and completed where its logits have the right shape, every row is
/// healthy and every token can be chosen.
pub proof fn law_ready_fence_lets_through<F: BatchFence, A: SamplingArithmetic>(
    before: GateModel<F>,
    batch_id: u64,
    logits: Seq<u32>,
    vocabulary: usize,
    arithmetic: &A,
    completion: Result<Poll<Vec<i32>>, RuntimeError>,
    after_completion: GateModel<F>,
    rollback: Result<Poll<()>, RuntimeError>,
    after_rollback: GateModel<F>,
)
    requires
        !before.quarantined,
        before.fence matches Some(watched) && watched.id == batch_id && !watched.completed,
        forall|asked: F, answer: Poll<Result<(), RuntimeError>>| #[trigger]
            F::answers((before.fence->0).fence, asked, answer) ==> answer matches Poll::Ready(
                Ok(_),
            ),
        gated_completion(
            before,
            batch_id,
            logits,
            vocabulary,
            arithmetic,
            completion,
            after_completion,
        ),
        gated_rollback(before, batch_id, rollback, after_rollback),
    ensures
        ({
            let rows = (before.scheduler.in_flight->0).rows;
            &&& !(completion matches Ok(Poll::Pending))
            &&& vocabulary > 0 && rows.len() * vocabulary == logits.len() && !unhealthy_row(
                logits,
                vocabulary,
                rows.len(),
            ) && select_error(before.scheduler, batch_id, logits, vocabulary) is None ==> (
            completion matches Ok(Poll::Ready(tokens)) && after_completion.scheduler
                == with_samplers(
                before.scheduler.complete_state(tokens@),
                advanced_samplers(before.scheduler, rows, rows.len() as int),
            ))
        }),
        rollback matches Ok(Poll::Ready(_)),
        after_rollback.scheduler == before.scheduler.fail_state(),
{
}

/// A quarantined gate stays as it is: launching, completing and rolling back are all refused.
pub proof fn law_quarantine_is_final<F, S: FnOnce(&ScheduledBatch) -> Result<
    F,
    BatchLaunchFailure,
>>(
    before: GateModel<F>,
    submit: S,
    result: Result<Option<ScheduledBatch>, RuntimeError>,
    after: GateModel<F>,
)
    requires
        before.quarantined,
        launched::<F, S>(before, submit, result, after),
    ensures
        result is Err,
        after == before,
{
}

/// A launch that failed leaves the scheduler in quarantine, its batch in flight, if and only if the
/// device may still be at work, or may have written to the cache, or the failure leaves open what it
/// did: where the device is lost, out of step, its worker has panicked or the failure is internal.
/// Any other failure is rolled back, and the scheduler can go on. A launch that succeeded is watched
/// by its own fence.
pub proof fn law_launch_failures_that_leave_work_open_quarantine<
    F,
    S: FnOnce(&ScheduledBatch) -> Result<F, BatchLaunchFailure>,
>(
    before: GateModel<F>,
    submit: S,
    result: Result<Option<ScheduledBatch>, RuntimeError>,
    after: GateModel<F>,
)
    requires
        !before.quarantined,
        before.scheduler.schedule().result matches Ok(Some(_)),
        launched(before, submit, result, after),
    ensures
        exists|batch: ScheduledBatch, answer: Result<F, BatchLaunchFailure>|
            #![trigger call_ensures(submit, (&batch,), answer)]
            call_ensures(submit, (&batch,), answer) && match answer {
                Ok(fence) => {
                    &&& result matches Ok(Some(shown)) && shown@ == batch@
                    &&& after.fence matches Some(watched) && watched.fence == fence
                        && !watched.completed && watched.id == batch.id
                    &&& !after.quarantined
                    &&& after.scheduler.in_flight == Some(batch@)
                },
                Err(failure) => {
                    &&& result matches Err(error) && error == failure.error
                    &&& after.quarantined <==> {
                        ||| failure.work == WorkState::Unknown
                        ||| !failure.committed_cache_intact
                        ||| failure.error.kind == RuntimeErrorKind::DeviceLost
                        ||| failure.error.kind == RuntimeErrorKind::Synchronization
                        ||| failure.error.kind == RuntimeErrorKind::WorkerPanicked
                        ||| failure.error.kind == RuntimeErrorKind::Internal
                    }
                    &&& after.quarantined ==> after.scheduler.in_flight == Some(batch@)
                    &&& !after.quarantined ==> after.scheduler.in_flight is None && after.fence
                        == before.fence
                },
            },
{
    let model = (before.scheduler.schedule().result->Ok_0)->0;
    let (batch, answer) = choose|batch: ScheduledBatch, answer: Result<F, BatchLaunchFailure>|
        #![trigger call_ensures(submit, (&batch,), answer)]
        batch@ == model && call_ensures(submit, (&batch,), answer) && match answer {
            Ok(fence) => after == (GateModel {
                scheduler: before.scheduler.schedule().after,
                fence: Some(FenceModel { id: model.id, fence, completed: false }),
                quarantined: false,
            }) && (result matches Ok(Some(b)) && b@ == model),
            Err(failure) => (result matches Err(error) && error == failure.error) && after == (
            if recoverable(failure) {
                GateModel { scheduler: before.scheduler.schedule().after.fail_state(), ..before }
            } else {
                GateModel {
                    scheduler: before.scheduler.schedule().after,
                    quarantined: true,
                    ..before
                }
            }),
        };
    assert(call_ensures(submit, (&batch,), answer));
}

} // verus!
