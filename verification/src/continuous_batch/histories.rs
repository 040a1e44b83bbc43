//! What holds of a request over the whole life of a scheduler.

use crate::continuous_batch::batch::{ContinuousBatchError, RowModel};
use crate::continuous_batch::completion::limit_changed;
use crate::continuous_batch::laws::{law_completion_draws_once, lemma_settle_keeps_others};
use crate::continuous_batch::model::{has_row, reservations_of, SchedulerModel};
use crate::continuous_batch::sampling::{
    advanced_samplers, row_choice, row_logits, rows_error, sampler_states, select_error, selects,
    with_samplers, BatchTokenSelection,
};
use crate::continuous_batch::soundness::{
    distinct_rows, law_complete_inv, law_promoted_inv, lemma_promote_front_inv, lemma_restored,
};
use crate::continuous_batch::{cancelled, CancelledGeneration};
use crate::generation::laws::{law_same_state_draws_the_same_token, steady};
use crate::generation::sampling::{
    sample_outcome, sampled, SamplerModel, SamplingArithmetic,
};
use crate::paged_kv::RequestId;
use crate::rng::after_draw;
use vstd::prelude::*;

verus! {

/// What happens to a scheduler.
#[verifier::ext_equal]
pub enum Event {
    /// A request is accepted.
    Submit {
        prompt: Seq<i32>,
        max_new_tokens: usize,
        eos: Seq<i32>,
        sampler: Option<SamplerModel>,
    },
    /// A batch is asked for.
    Schedule,
    /// The batch in flight is completed with tokens selected for it from logits.
    Complete { batch_id: u64, logits: Seq<u32>, vocabulary: usize, tokens: Seq<i32> },
    /// The batch in flight is rolled back.
    Fail { batch_id: u64 },
    /// A request is cancelled, or asked to be.
    Cancel { id: RequestId },
    /// The oldest finished request is taken out.
    Pop,
    /// The token limit is changed, or asked to be.
    Limit { limit: usize },
    /// A call is refused, or only looks: a request with a fault, a preview of a selection, a
    /// selection that is stale.
    Nothing,
}

/// An event takes a scheduler from one state to another.
pub open spec fn follows<A: SamplingArithmetic>(
    arithmetic: &A,
    before: SchedulerModel,
    event: Event,
    after: SchedulerModel,
) -> bool {
    match event {
        Event::Submit { prompt, max_new_tokens, eos, sampler } => before.submit_error(
            prompt,
            max_new_tokens,
            eos,
        ) is None && after == before.submit_state(prompt, max_new_tokens, eos, sampler),
        Event::Schedule => after == before.schedule().after,
        Event::Complete { batch_id, logits, vocabulary, tokens } => {
            let rows = (before.in_flight->0).rows;
            &&& select_error(before, batch_id, logits, vocabulary) is None
            &&& before.complete_error(batch_id, tokens) is None
            &&& forall|i: int|
                0 <= i < rows.len() ==> row_choice(
                    arithmetic,
                    before.active[rows[i].request_id.0],
                    row_logits(logits, vocabulary, i),
                    #[trigger] tokens[i],
                )
            &&& after == with_samplers(
                before.complete_state(tokens),
                advanced_samplers(before, rows, rows.len() as int),
            )
        },
        Event::Fail { batch_id } => before.batch_error(batch_id) is None && after
            == before.fail_state(),
        Event::Cancel { id } => exists|
            result: Result<Option<CancelledGeneration>, ContinuousBatchError>,
        | #[trigger] cancelled(before, id, result, after),
        Event::Pop => before.finished.len() > 0 && after == (SchedulerModel {
            finished: before.finished.drop_first(),
            ..before
        }),
        Event::Limit { limit } => exists|result: Result<(), ContinuousBatchError>| #[trigger]
            limit_changed(before, limit, result, after),
        Event::Nothing => after == before,
    }
}

/// States that follow one another by events, each of them sound.
pub open spec fn history<A: SamplingArithmetic>(
    arithmetic: &A,
    states: Seq<SchedulerModel>,
    events: Seq<Event>,
) -> bool {
    &&& states.len() == events.len() + 1
    &&& forall|i: int| 0 <= i < states.len() ==> (#[trigger] states[i]).inv()
    &&& forall|i: int|
        0 <= i < events.len() ==> follows(
            arithmetic,
            states[i],
            #[trigger] events[i],
            states[i + 1],
        )
}

/// The place of a request among rows.
pub open spec fn row_index(rows: Seq<RowModel>, k: u64) -> int {
    choose|i: int| 0 <= i < rows.len() && (#[trigger] rows[i]).request_id.0 == k
}

/// The logits of request `k` in one completed batch.
pub open spec fn seen_in(m: SchedulerModel, event: Event, k: u64) -> Seq<Seq<u32>> {
    match event {
        Event::Complete { batch_id, logits, vocabulary, tokens } => {
            let rows = (m.in_flight->0).rows;
            if has_row(rows, k) {
                seq![row_logits(logits, vocabulary, row_index(rows, k))]
            } else {
                Seq::empty()
            }
        },
        _ => Seq::empty(),
    }
}

/// The rows of logits of request `k` in the batches completed by the first `n` events.
pub open spec fn rows_seen(
    states: Seq<SchedulerModel>,
    events: Seq<Event>,
    k: u64,
    n: int,
) -> Seq<Seq<u32>>
    decreases n,
{
    if n <= 0 {
        Seq::empty()
    } else {
        rows_seen(states, events, k, n - 1) + seen_in(states[n - 1], events[n - 1], k)
    }
}

/// The random generator after `n` draws.
pub open spec fn after_draws(state: Seq<u8>, n: int) -> Seq<u8>
    decreases n,
{
    if n <= 0 {
        state
    } else {
        after_draw(after_draws(state, n - 1))
    }
}

/// A sampler after `n` draws.
pub open spec fn advanced(start: SamplerModel, n: int) -> SamplerModel {
    SamplerModel { config: start.config, state: after_draws(start.state, n) }
}

/// Drawing from rows of logits one after the other, a sampler may return these tokens.
pub open spec fn drawn<A: SamplingArithmetic>(
    arithmetic: &A,
    start: SamplerModel,
    rows: Seq<Seq<u32>>,
    tokens: Seq<i32>,
) -> bool {
    &&& tokens.len() == rows.len()
    &&& forall|i: int|
        0 <= i < tokens.len() ==> draws(
            arithmetic,
            advanced(start, i),
            rows[i],
            #[trigger] tokens[i],
        )
}

/// A sampler may draw `token` from a row.
pub open spec fn draws<A: SamplingArithmetic>(
    arithmetic: &A,
    sampler: SamplerModel,
    row: Seq<u32>,
    token: i32,
) -> bool {
    exists|slice: &[u32]|
        slice@ == row && #[trigger] sampled(arithmetic, sampler, slice, token)
}

/// A queued request `k` has not been in a batch; a running or finished one has the tokens that its
/// sampler drew from its rows, and a running one the sampler after those draws.
pub open spec fn on_track<A: SamplingArithmetic>(
    arithmetic: &A,
    m: SchedulerModel,
    k: u64,
    start: SamplerModel,
    rows: Seq<Seq<u32>>,
) -> bool {
    &&& k < m.next_request
    &&& forall|i: int|
        0 <= i < m.pending.len() && (#[trigger] m.pending[i]).id.0 == k ==> rows.len() == 0
            && m.pending[i].sampler == Some(start)
    &&& m.active.contains_key(k) ==> drawn(arithmetic, start, rows, m.active[k].generated)
        && m.active[k].sampler == Some(advanced(start, rows.len() as int))
    &&& forall|i: int|
        0 <= i < m.finished.len() && (#[trigger] m.finished[i]).request_id.0 == k ==> drawn(
            arithmetic,
            start,
            rows,
            m.finished[i].generated,
        ) && !m.active.contains_key(k) && !queued(m, k)
}

/// Request `k` is queued.
pub open spec fn queued(m: SchedulerModel, k: u64) -> bool {
    exists|i: int| 0 <= i < m.pending.len() && (#[trigger] m.pending[i]).id.0 == k
}

/// Two states agree on what bears on a request: who is queued, what runs with which tokens and
/// samplers, and what has finished.
spec fn same_requests(a: SchedulerModel, b: SchedulerModel) -> bool {
    &&& a.next_request == b.next_request
    &&& a.pending == b.pending
    &&& a.finished == b.finished
    &&& forall|k: u64| #[trigger] a.active.contains_key(k) == b.active.contains_key(k)
    &&& forall|k: u64|
        a.active.contains_key(k) ==> (#[trigger] a.active[k]).generated == b.active[k].generated
            && a.active[k].sampler == b.active[k].sampler
}

proof fn lemma_same_track<A: SamplingArithmetic>(
    arithmetic: &A,
    a: SchedulerModel,
    b: SchedulerModel,
    k: u64,
    start: SamplerModel,
    rows: Seq<Seq<u32>>,
)
    requires
        same_requests(a, b),
        on_track(arithmetic, a, k, start, rows),
    ensures
        on_track(arithmetic, b, k, start, rows),
{
    assert(a.active.contains_key(k) == b.active.contains_key(k));
    if b.active.contains_key(k) {
        assert(a.active[k].generated == b.active[k].generated);
    }
    assert(queued(a, k) == queued(b, k));
}

/// Admitting requests keeps a request on track.
proof fn lemma_promoted_track<A: SamplingArithmetic>(
    arithmetic: &A,
    m: SchedulerModel,
    k: u64,
    start: SamplerModel,
    rows: Seq<Seq<u32>>,
)
    requires
        m.inv(),
        on_track(arithmetic, m, k, start, rows),
    ensures
        on_track(arithmetic, m.promoted(), k, start, rows),
    decreases m.pending.len(),
{
    if m.can_admit() {
        let after = m.promote_front();
        let front = m.pending[0];
        lemma_promote_front_inv(m);
        assert(m.pending_sound(0));
        assert forall|i: int|
            0 <= i < after.pending.len() && (#[trigger] after.pending[i]).id.0 == k implies
            rows.len() == 0 && after.pending[i].sampler == Some(start) by {
            assert(after.pending[i] == m.pending[i + 1]);
        }
        if front.id.0 == k {
            assert(m.pending[0].id.0 == k);
            assert(queued(m, k));
            assert(drawn(arithmetic, start, rows, Seq::<i32>::empty()));
            assert(after_draws(start.state, 0) == start.state);
        }
        assert forall|i: int|
            0 <= i < after.finished.len() && (#[trigger] after.finished[i]).request_id.0
                == k implies drawn(arithmetic, start, rows, after.finished[i].generated)
            && !after.active.contains_key(k) && !queued(after, k) by {
            assert(m.finished[i].request_id.0 == k);
            if queued(after, k) {
                let j = choose|j: int|
                    0 <= j < after.pending.len() && (#[trigger] after.pending[j]).id.0 == k;
                assert(m.pending[j + 1].id.0 == k);
            }
        }
        assert(on_track(arithmetic, after, k, start, rows));
        lemma_promoted_track(arithmetic, after, k, start, rows);
    }
}

/// Asking for a batch keeps a request on track.
proof fn lemma_schedule_track<A: SamplingArithmetic>(
    arithmetic: &A,
    m: SchedulerModel,
    k: u64,
    start: SamplerModel,
    rows: Seq<Seq<u32>>,
)
    requires
        m.inv(),
        on_track(arithmetic, m, k, start, rows),
    ensures
        on_track(arithmetic, m.schedule().after, k, start, rows),
{
    if m.in_flight is None && m.next_batch < u64::MAX {
        let p = m.promoted();
        let after = m.schedule().after;
        lemma_promoted_track(arithmetic, m, k, start, rows);
        assert(same_requests(p, after));
        lemma_same_track(arithmetic, p, after, k, start, rows);
    }
}

/// What settling rows does to request `k`.
proof fn lemma_settle_effect(
    m: SchedulerModel,
    rows: Seq<RowModel>,
    tokens: Seq<i32>,
    k: u64,
    at: int,
)
    requires
        rows.len() == tokens.len(),
        distinct_rows(rows),
        0 <= at < rows.len(),
        rows[at].request_id.0 == k,
        m.active.contains_key(k),
        forall|i: int|
            0 <= i < m.finished.len() ==> (#[trigger] m.finished[i]).request_id.0 != k,
    ensures
        ({
            let after = m.settle_all(rows, tokens);
            let generated = m.active[k].generated.push(tokens[at]);
            &&& after.pending == m.pending
            &&& after.next_request == m.next_request
            &&& after.active.contains_key(k) ==> after.active[k].generated == generated
            &&& forall|i: int|
                0 <= i < after.finished.len() && (#[trigger] after.finished[i]).request_id.0 == k
                    ==> after.finished[i].generated == generated && !after.active.contains_key(k)
        }),
    decreases rows.len(),
{
    let fewer = rows.drop_last();
    let less = tokens.drop_last();
    let n = rows.len() - 1;
    assert(distinct_rows(fewer)) by {
        assert forall|i: int, j: int| 0 <= i < j < fewer.len() implies (
        #[trigger] fewer[i]).request_id.0 != (#[trigger] fewer[j]).request_id.0 by {
            assert(fewer[i] == rows[i]);
            assert(fewer[j] == rows[j]);
        }
    }
    let before = m.settle_all(fewer, less);
    if at < n {
        assert(fewer[at] == rows[at]);
        lemma_settle_effect(m, fewer, less, k, at);
        assert(rows[at].request_id.0 != rows[n].request_id.0);
    } else {
        assert(!has_row(fewer, k)) by {
            if has_row(fewer, k) {
                let i = choose|i: int|
                    0 <= i < fewer.len() && (#[trigger] fewer[i]).request_id.0 == k;
                assert(rows[i].request_id.0 != rows[n].request_id.0);
            }
        }
        lemma_settle_keeps_others(m, fewer, less, k);
        lemma_settle_elsewhere(m, fewer, less, k);
    }
}

/// Settling rows of other requests neither finishes nor queues request `k`.
proof fn lemma_settle_elsewhere(
    m: SchedulerModel,
    rows: Seq<RowModel>,
    tokens: Seq<i32>,
    k: u64,
)
    requires
        rows.len() == tokens.len(),
        !has_row(rows, k),
    ensures
        ({
            let after = m.settle_all(rows, tokens);
            &&& after.pending == m.pending
            &&& after.next_request == m.next_request
            &&& after.finished.len() >= m.finished.len()
            &&& forall|i: int|
                0 <= i < after.finished.len() && (#[trigger] after.finished[i]).request_id.0 == k
                    ==> i < m.finished.len() && after.finished[i] == m.finished[i]
        }),
    decreases rows.len(),
{
    if rows.len() > 0 {
        let fewer = rows.drop_last();
        assert(!has_row(fewer, k)) by {
            if has_row(fewer, k) {
                let i = choose|i: int|
                    0 <= i < fewer.len() && (#[trigger] fewer[i]).request_id.0 == k;
                assert(rows[i].request_id.0 == k);
            }
        }
        assert(rows[rows.len() - 1].request_id.0 != k);
        lemma_settle_elsewhere(m, fewer, tokens.drop_last(), k);
    }
}

/// Samplers put in place change nothing but samplers of running requests.
proof fn lemma_samplers_elsewhere(m: SchedulerModel, samplers: Seq<(RequestId, SamplerModel)>)
    ensures
        with_samplers(m, samplers).pending == m.pending,
        with_samplers(m, samplers).finished == m.finished,
        with_samplers(m, samplers).in_flight == m.in_flight,
        with_samplers(m, samplers).next_batch == m.next_batch,
        with_samplers(m, samplers).next_request == m.next_request,
        forall|k: u64| #[trigger]
            with_samplers(m, samplers).active.contains_key(k) == m.active.contains_key(k),
        forall|k: u64|
            m.active.contains_key(k) ==> (#[trigger] with_samplers(
                m,
                samplers,
            ).active[k]).generated == m.active[k].generated,
    decreases samplers.len(),
{
    if samplers.len() > 0 {
        lemma_samplers_elsewhere(m, samplers.drop_last());
    }
}

/// Completing a batch keeps a request on track, its row seen.
proof fn lemma_complete_track<A: SamplingArithmetic>(
    arithmetic: &A,
    m: SchedulerModel,
    event: Event,
    after: SchedulerModel,
    k: u64,
    start: SamplerModel,
    rows: Seq<Seq<u32>>,
)
    requires
        m.inv(),
        event is Complete,
        follows(arithmetic, m, event, after),
        on_track(arithmetic, m, k, start, rows),
    ensures
        on_track(arithmetic, after, k, start, rows + seen_in(m, event, k)),
{
    if let Event::Complete { batch_id, logits, vocabulary, tokens } = event {
        let batch = m.in_flight->0;
        let list = batch.rows;
        let begun = SchedulerModel {
            kv: m.kv.commit_all(reservations_of(list)),
            in_flight: None,
            ..m
        };
        let settled = m.complete_state(tokens);
        law_complete_inv(m, batch_id, tokens);
        law_completion_draws_once(m, batch_id, tokens, k);
        lemma_samplers_elsewhere(settled, advanced_samplers(m, list, list.len() as int));
        let now = rows + seen_in(m, event, k);
        assert(settled.active.contains_key(k) == after.active.contains_key(k));
        if has_row(list, k) {
            let at = row_index(list, k);
            let row = row_logits(logits, vocabulary, at);
            assert(list[at].request_id.0 == k);
            assert(m.row_sound(batch, at));
            assert forall|i: int|
                0 <= i < begun.finished.len() implies (#[trigger] begun.finished[i]).request_id.0
                    != k by {
                if m.finished[i].request_id.0 == k {
                    assert(!m.active.contains_key(k));
                }
            }
            lemma_settle_effect(begun, list, tokens, k, at);
            let generated = m.active[k].generated.push(tokens[at]);
            assert(row_choice(arithmetic, m.active[list[at].request_id.0], row, tokens[at]));
            assert(now =~= rows.push(row));
            assert(draws(arithmetic, advanced(start, rows.len() as int), row, tokens[at]));
            assert(drawn(arithmetic, start, now, generated)) by {
                assert forall|i: int| 0 <= i < generated.len() implies draws(
                    arithmetic,
                    advanced(start, i),
                    now[i],
                    #[trigger] generated[i],
                ) by {
                    if i < rows.len() {
                        assert(m.active[k].generated[i] == generated[i]);
                    }
                }
            }
            if after.active.contains_key(k) {
                assert(after.active[k].generated == settled.active[k].generated);
            }
            assert(!queued(after, k)) by {
                if queued(after, k) {
                    let i = choose|i: int|
                        0 <= i < after.pending.len() && (#[trigger] after.pending[i]).id.0 == k;
                    assert(m.pending[i].id.0 == k);
                    assert(m.pending_sound(i));
                }
            }
        } else {
            assert(now =~= rows);
            lemma_settle_keeps_others(begun, list, tokens, k);
            lemma_settle_elsewhere(begun, list, tokens, k);
            if after.active.contains_key(k) {
                assert(after.active[k].generated == settled.active[k].generated);
            }
            assert(queued(after, k) == queued(m, k));
            assert forall|i: int|
                0 <= i < after.finished.len() && (#[trigger] after.finished[i]).request_id.0
                    == k implies drawn(arithmetic, start, now, after.finished[i].generated)
                && !after.active.contains_key(k) && !queued(after, k) by {
                assert(m.finished[i].request_id.0 == k);
            }
        }
    }
}

/// Any event keeps a request on track, with the rows that it showed.
proof fn lemma_event_track<A: SamplingArithmetic>(
    arithmetic: &A,
    m: SchedulerModel,
    event: Event,
    after: SchedulerModel,
    k: u64,
    start: SamplerModel,
    rows: Seq<Seq<u32>>,
)
    requires
        m.inv(),
        follows(arithmetic, m, event, after),
        on_track(arithmetic, m, k, start, rows),
    ensures
        on_track(arithmetic, after, k, start, rows + seen_in(m, event, k)),
{
    let now = rows + seen_in(m, event, k);
    match event {
        Event::Complete { .. } => {
            lemma_complete_track(arithmetic, m, event, after, k, start, rows);
        },
        Event::Schedule => {
            assert(now =~= rows);
            lemma_schedule_track(arithmetic, m, k, start, rows);
        },
        Event::Submit { prompt, max_new_tokens, eos, sampler } => {
            assert(now =~= rows);
            assert forall|i: int|
                0 <= i < after.pending.len() && (#[trigger] after.pending[i]).id.0 == k implies
                rows.len() == 0 && after.pending[i].sampler == Some(start) by {
                assert(i < m.pending.len());
                assert(after.pending[i] == m.pending[i]);
            }
            assert forall|i: int|
                0 <= i < after.finished.len() && (#[trigger] after.finished[i]).request_id.0
                    == k implies drawn(arithmetic, start, rows, after.finished[i].generated)
                && !after.active.contains_key(k) && !queued(after, k) by {
                assert(m.finished[i].request_id.0 == k);
                if queued(after, k) {
                    let j = choose|j: int|
                        0 <= j < after.pending.len() && (#[trigger] after.pending[j]).id.0 == k;
                    assert(m.pending[j].id.0 == k);
                }
            }
        },
        Event::Fail { batch_id } => {
            assert(now =~= rows);
            let batch = m.in_flight->0;
            assert forall|i: int|
                #![trigger batch.rows[i]]
                0 <= i < batch.rows.len() implies m.active.contains_key(
                batch.rows[i].request_id.0,
            ) by {
                assert(m.row_sound(batch, i));
            }
            lemma_restored(m.active, batch.kind, batch.rows);
            assert forall|j: u64| m.active.contains_key(j) implies (
            #[trigger] m.active[j]).generated == after.active[j].generated && m.active[j].sampler
                == after.active[j].sampler by {
                if has_row(batch.rows, j) {
                    let i = choose|i: int|
                        0 <= i < batch.rows.len() && (#[trigger] batch.rows[i]).request_id.0 == j;
                    assert(batch.rows[i].request_id.0 == j);
                } else {
                    assert(after.active[j] == m.active[j]);
                }
            }
            assert(same_requests(m, after));
            lemma_same_track(arithmetic, m, after, k, start, rows);
        },
        Event::Cancel { id } => {
            assert(now =~= rows);
            assert forall|i: int|
                0 <= i < after.pending.len() && (#[trigger] after.pending[i]).id.0 == k implies
                queued(m, k) && rows.len() == 0 && after.pending[i].sampler == Some(start) by {
                if after.pending.len() < m.pending.len() {
                    let gone = m.pending_index(id)->0;
                    assert(m.queued_at(id, gone));
                    let x = if i < gone {
                        i
                    } else {
                        i + 1
                    };
                    assert(after.pending[i] == m.pending[x]);
                    assert(m.pending[x].id.0 == k);
                } else {
                    assert(m.pending[i].id.0 == k);
                }
            }
            assert forall|i: int|
                0 <= i < after.finished.len() && (#[trigger] after.finished[i]).request_id.0
                    == k implies drawn(arithmetic, start, rows, after.finished[i].generated)
                && !after.active.contains_key(k) && !queued(after, k) by {
                assert(m.finished[i].request_id.0 == k);
                if queued(after, k) {
                    let j = choose|j: int|
                        0 <= j < after.pending.len() && (#[trigger] after.pending[j]).id.0 == k;
                    assert(queued(m, k));
                }
            }
        },
        Event::Pop => {
            assert(now =~= rows);
            assert(queued(after, k) == queued(m, k));
            assert forall|i: int|
                0 <= i < after.finished.len() && (#[trigger] after.finished[i]).request_id.0
                    == k implies drawn(arithmetic, start, rows, after.finished[i].generated)
                && !after.active.contains_key(k) && !queued(after, k) by {
                assert(after.finished[i] == m.finished[i + 1]);
            }
        },
        Event::Limit { limit } => {
            assert(now =~= rows);
            assert(same_requests(m, after));
            lemma_same_track(arithmetic, m, after, k, start, rows);
        },
        Event::Nothing => {
            assert(now =~= rows);
        },
    }
}

/// Every finished request was accepted before the next one.
pub open spec fn finished_are_old(m: SchedulerModel) -> bool {
    forall|i: int|
        0 <= i < m.finished.len() ==> (#[trigger] m.finished[i]).request_id.0 < m.next_request
}

/// Settling rows of running requests finishes none that was not accepted.
proof fn lemma_settle_old(m: SchedulerModel, rows: Seq<RowModel>, tokens: Seq<i32>)
    requires
        rows.len() == tokens.len(),
        finished_are_old(m),
        forall|i: int|
            0 <= i < rows.len() ==> (#[trigger] rows[i]).request_id.0 < m.next_request,
    ensures
        finished_are_old(m.settle_all(rows, tokens)),
        m.settle_all(rows, tokens).next_request == m.next_request,
    decreases rows.len(),
{
    if rows.len() > 0 {
        let fewer = rows.drop_last();
        assert forall|i: int| 0 <= i < fewer.len() implies (#[trigger] fewer[i]).request_id.0
            < m.next_request by {
            assert(fewer[i] == rows[i]);
        }
        lemma_settle_old(m, fewer, tokens.drop_last());
        assert(rows[rows.len() - 1].request_id.0 < m.next_request);
    }
}

/// No event gives a finished request a number that is still to come; a new scheduler has none.
pub proof fn law_finished_requests_are_old<A: SamplingArithmetic>(
    arithmetic: &A,
    m: SchedulerModel,
    event: Event,
    after: SchedulerModel,
)
    requires
        m.inv(),
        finished_are_old(m),
        follows(arithmetic, m, event, after),
    ensures
        finished_are_old(after),
{
    match event {
        Event::Complete { batch_id, logits, vocabulary, tokens } => {
            let batch = m.in_flight->0;
            let begun = SchedulerModel {
                kv: m.kv.commit_all(reservations_of(batch.rows)),
                in_flight: None,
                ..m
            };
            assert forall|i: int| 0 <= i < batch.rows.len() implies (
            #[trigger] batch.rows[i]).request_id.0 < begun.next_request by {
                assert(m.row_sound(batch, i));
                assert(m.active_sound(batch.rows[i].request_id.0));
            }
            lemma_settle_old(begun, batch.rows, tokens);
            lemma_samplers_elsewhere(
                m.complete_state(tokens),
                advanced_samplers(m, batch.rows, batch.rows.len() as int),
            );
        },
        Event::Schedule => {
            law_promoted_inv(m);
        },
        Event::Pop => {
            assert forall|i: int| 0 <= i < after.finished.len() implies (
            #[trigger] after.finished[i]).request_id.0 < after.next_request by {
                assert(after.finished[i] == m.finished[i + 1]);
            }
        },
        _ => {},
    }
}

/// While a batch is in flight, nothing but completing it or rolling it back changes the batch or
/// any of its requests: tokens selected for it at any moment are tokens that may be selected when
/// it is completed.
pub proof fn law_batch_in_flight_waits<A: SamplingArithmetic>(
    arithmetic: &A,
    m: SchedulerModel,
    event: Event,
    after: SchedulerModel,
    i: int,
)
    requires
        m.inv(),
        m.in_flight is Some,
        follows(arithmetic, m, event, after),
        !(event is Complete),
        !(event is Fail),
        0 <= i < (m.in_flight->0).rows.len(),
    ensures
        after.in_flight == m.in_flight,
        after.active.contains_key((m.in_flight->0).rows[i].request_id.0),
        after.active[(m.in_flight->0).rows[i].request_id.0]
            == m.active[(m.in_flight->0).rows[i].request_id.0],
{
    assert(m.row_sound(m.in_flight->0, i));
}

/// Two states with the same requests in a batch refuse the same logits and draw the same.
proof fn lemma_same_selection(
    m: SchedulerModel,
    after: SchedulerModel,
    rows: Seq<RowModel>,
    logits: Seq<u32>,
    vocabulary: usize,
    n: int,
)
    requires
        n <= rows.len(),
        forall|i: int|
            0 <= i < rows.len() ==> after.active[(#[trigger] rows[i]).request_id.0]
                == m.active[rows[i].request_id.0],
    ensures
        rows_error(after, rows, logits, vocabulary, n) == rows_error(m, rows, logits, vocabulary, n),
        advanced_samplers(after, rows, n) == advanced_samplers(m, rows, n),
    decreases n,
{
    if n > 0 {
        lemma_same_selection(m, after, rows, logits, vocabulary, n - 1);
        assert(after.active[rows[n - 1].request_id.0] == m.active[rows[n - 1].request_id.0]);
    }
}

/// A selection keeps until its batch is completed or rolled back: what `select_batch_tokens`
/// returned before any other event is a selection after it too.
pub proof fn law_selection_waits<A: SamplingArithmetic>(
    arithmetic: &A,
    m: SchedulerModel,
    event: Event,
    after: SchedulerModel,
    batch_id: u64,
    logits: Seq<u32>,
    vocabulary: usize,
    selection: BatchTokenSelection,
)
    requires
        m.inv(),
        follows(arithmetic, m, event, after),
        !(event is Complete),
        !(event is Fail),
        selects(arithmetic, m, batch_id, logits, vocabulary, selection),
    ensures
        selects(arithmetic, after, batch_id, logits, vocabulary, selection),
{
    let rows = (m.in_flight->0).rows;
    assert forall|i: int| 0 <= i < rows.len() implies after.in_flight == m.in_flight
        && after.active[(#[trigger] rows[i]).request_id.0] == m.active[rows[i].request_id.0] by {
        law_batch_in_flight_waits(arithmetic, m, event, after, i);
    }
    assert(m.row_sound(m.in_flight->0, 0));
    law_batch_in_flight_waits(arithmetic, m, event, after, 0);
    lemma_same_selection(m, after, rows, logits, vocabulary, rows.len() as int);
    assert forall|i: int| 0 <= i < rows.len() implies row_choice(
        arithmetic,
        after.active[rows[i].request_id.0],
        row_logits(logits, vocabulary, i),
        #[trigger] selection.tokens@[i],
    ) by {
        assert(after.active[rows[i].request_id.0] == m.active[rows[i].request_id.0]);
    }
}

/// What `complete_selected_batch` does with a selection that `select_batch_tokens` returned is the
/// event of completing a batch.
pub proof fn law_completion_is_an_event<A: SamplingArithmetic>(
    arithmetic: &A,
    m: SchedulerModel,
    batch_id: u64,
    logits: Seq<u32>,
    vocabulary: usize,
    selection: BatchTokenSelection,
    after: SchedulerModel,
)
    requires
        selects(arithmetic, m, batch_id, logits, vocabulary, selection),
        m.complete_error(selection.batch_id, selection.tokens@) is None,
        after == with_samplers(
            m.complete_state(selection.tokens@),
            sampler_states(selection.samplers@),
        ),
    ensures
        follows(
            arithmetic,
            m,
            Event::Complete { batch_id, logits, vocabulary, tokens: selection.tokens@ },
            after,
        ),
{
}

/// Batches are numbered upwards: whatever happens, the batch in flight is the one that was, or has
/// a number that no batch had before.
pub proof fn law_batch_numbers_grow<A: SamplingArithmetic>(
    arithmetic: &A,
    m: SchedulerModel,
    event: Event,
    after: SchedulerModel,
)
    requires
        m.inv(),
        follows(arithmetic, m, event, after),
    ensures
        m.next_batch <= after.next_batch,
        after.in_flight matches Some(batch) ==> after.in_flight == m.in_flight || (m.next_batch
            <= batch.id < after.next_batch),
{
    match event {
        Event::Complete { batch_id, logits, vocabulary, tokens } => {
            let batch = m.in_flight->0;
            let begun = SchedulerModel {
                kv: m.kv.commit_all(reservations_of(batch.rows)),
                in_flight: None,
                ..m
            };
            lemma_settle_numbers(begun, batch.rows, tokens);
            lemma_samplers_elsewhere(
                m.complete_state(tokens),
                advanced_samplers(m, batch.rows, batch.rows.len() as int),
            );
        },
        Event::Schedule => {
            law_promoted_inv(m);
        },
        _ => {},
    }
}

proof fn lemma_settle_numbers(m: SchedulerModel, rows: Seq<RowModel>, tokens: Seq<i32>)
    requires
        rows.len() == tokens.len(),
    ensures
        m.settle_all(rows, tokens).next_batch == m.next_batch,
        m.settle_all(rows, tokens).in_flight == m.in_flight,
    decreases rows.len(),
{
    if rows.len() > 0 {
        lemma_settle_numbers(m, rows.drop_last(), tokens.drop_last());
    }
}

/// A selection is stale as soon as its batch is completed or rolled back: from then on, whatever
/// happens, completing with it is refused, which changes nothing.
pub proof fn law_stale_selection_is_refused<A: SamplingArithmetic>(
    arithmetic: &A,
    states: Seq<SchedulerModel>,
    events: Seq<Event>,
    batch_id: u64,
    tokens: Seq<i32>,
    n: int,
)
    requires
        history(arithmetic, states, events),
        events.len() > 0,
        states[0].batch_error(batch_id) is None,
        events[0] is Complete || events[0] is Fail,
        1 <= n < states.len(),
    ensures
        states[n].complete_error(batch_id, tokens) is Some,
{
    lemma_stale(arithmetic, states, events, batch_id, n);
}

proof fn lemma_stale<A: SamplingArithmetic>(
    arithmetic: &A,
    states: Seq<SchedulerModel>,
    events: Seq<Event>,
    batch_id: u64,
    n: int,
)
    requires
        history(arithmetic, states, events),
        events.len() > 0,
        states[0].batch_error(batch_id) is None,
        events[0] is Complete || events[0] is Fail,
        1 <= n < states.len(),
    ensures
        batch_id < states[n].next_batch,
        states[n].in_flight matches Some(batch) ==> batch.id != batch_id,
    decreases n,
{
    let m = states[n - 1];
    assert(follows(arithmetic, m, events[n - 1], states[n - 1 + 1]));
    assert(m.inv());
    law_batch_numbers_grow(arithmetic, m, events[n - 1], states[n]);
    if n == 1 {
        if let Event::Complete { batch_id, logits, vocabulary, tokens } = events[0] {
            let batch = m.in_flight->0;
            let begun = SchedulerModel {
                kv: m.kv.commit_all(reservations_of(batch.rows)),
                in_flight: None,
                ..m
            };
            lemma_settle_numbers(begun, batch.rows, tokens);
            lemma_samplers_elsewhere(
                m.complete_state(tokens),
                advanced_samplers(m, batch.rows, batch.rows.len() as int),
            );
        }
        assert(states[1].in_flight is None);
    } else {
        lemma_stale(arithmetic, states, events, batch_id, n - 1);
    }
}

/// The tokens of a sampled request are the draws of its own sampler from its own rows of logits,
/// one draw for each, at every moment of a scheduler's life: whatever other requests share or join
/// its batches, and however many batches fail, previews are taken or calls are refused in between.
pub proof fn law_requests_draw_from_their_own_streams<A: SamplingArithmetic>(
    arithmetic: &A,
    states: Seq<SchedulerModel>,
    events: Seq<Event>,
    prompt: Seq<i32>,
    max_new_tokens: usize,
    eos: Seq<i32>,
    start: SamplerModel,
    n: int,
)
    requires
        history(arithmetic, states, events),
        events.len() > 0,
        events[0] == (Event::Submit { prompt, max_new_tokens, eos, sampler: Some(start) }),
        finished_are_old(states[0]),
        1 <= n < states.len(),
    ensures
        ({
            let k = states[0].next_request;
            let rows = rows_seen(states, events, k, n);
            let m = states[n];
            &&& m.active.contains_key(k) ==> drawn(arithmetic, start, rows, m.active[k].generated)
                && m.active[k].sampler == Some(advanced(start, rows.len() as int))
            &&& forall|i: int|
                0 <= i < m.finished.len() && (#[trigger] m.finished[i]).request_id.0 == k ==> drawn(
                    arithmetic,
                    start,
                    rows,
                    m.finished[i].generated,
                )
        }),
{
    lemma_history_track(arithmetic, states, events, prompt, max_new_tokens, eos, start, n);
}

proof fn lemma_history_track<A: SamplingArithmetic>(
    arithmetic: &A,
    states: Seq<SchedulerModel>,
    events: Seq<Event>,
    prompt: Seq<i32>,
    max_new_tokens: usize,
    eos: Seq<i32>,
    start: SamplerModel,
    n: int,
)
    requires
        history(arithmetic, states, events),
        events.len() > 0,
        events[0] == (Event::Submit { prompt, max_new_tokens, eos, sampler: Some(start) }),
        finished_are_old(states[0]),
        1 <= n < states.len(),
    ensures
        on_track(
            arithmetic,
            states[n],
            states[0].next_request,
            start,
            rows_seen(states, events, states[0].next_request, n),
        ),
    decreases n,
{
    let k = states[0].next_request;
    if n == 1 {
        let m = states[0];
        let after = states[1];
        assert(follows(arithmetic, m, events[0], after));
        let rows = rows_seen(states, events, k, 1);
        assert(rows_seen(states, events, k, 0) =~= Seq::<Seq<u32>>::empty());
        assert(rows =~= Seq::<Seq<u32>>::empty());
        assert(!m.active.contains_key(k)) by {
            if m.active.contains_key(k) {
                assert(m.active_sound(k));
            }
        }
        assert forall|i: int|
            0 <= i < after.pending.len() && (#[trigger] after.pending[i]).id.0 == k implies
            rows.len() == 0 && after.pending[i].sampler == Some(start) by {
            if i < m.pending.len() {
                assert(after.pending[i] == m.pending[i]);
                assert(m.pending_sound(i));
            }
        }
        assert forall|i: int|
            0 <= i < after.finished.len() && (#[trigger] after.finished[i]).request_id.0
                == k implies drawn(arithmetic, start, rows, after.finished[i].generated)
            && !after.active.contains_key(k) && !queued(after, k) by {
            if i < m.finished.len() {
                assert(after.finished[i] == m.finished[i]);
                assert(m.finished[i].request_id.0 < m.next_request);
            }
            if queued(after, k) {
                let j = choose|j: int|
                    0 <= j < after.pending.len() && (#[trigger] after.pending[j]).id.0 == k;
                assert(m.pending_sound(j)) by {
                    assert(m.pending[j] == after.pending[j]);
                }
            }
        }
    } else {
        lemma_history_track(
            arithmetic,
            states,
            events,
            prompt,
            max_new_tokens,
            eos,
            start,
            n - 1,
        );
        assert(follows(arithmetic, states[n - 1], events[n - 1], states[n - 1 + 1]));
        assert(states[n - 1].inv());
        lemma_event_track(
            arithmetic,
            states[n - 1],
            events[n - 1],
            states[n],
            k,
            start,
            rows_seen(states, events, k, n - 1),
        );
    }
}

/// A sampler that draws from the same rows draws the same tokens: with arithmetic that always
/// gives the same results, rows and starting state fix what a request generates.
pub proof fn law_rows_fix_the_draws<A: SamplingArithmetic>(
    arithmetic: &A,
    start: SamplerModel,
    rows: Seq<Seq<u32>>,
    first: Seq<i32>,
    second: Seq<i32>,
)
    requires
        steady(arithmetic),
        drawn(arithmetic, start, rows, first),
        drawn(arithmetic, start, rows, second),
    ensures
        first == second,
{
    assert forall|i: int| 0 <= i < first.len() implies first[i] == second[i] by {
        let sampler = advanced(start, i);
        assert(draws(arithmetic, sampler, rows[i], first[i]));
        assert(draws(arithmetic, sampler, rows[i], second[i]));
        let x = choose|x: &[u32]|
            x@ == rows[i] && #[trigger] sampled(arithmetic, sampler, x, first[i]);
        let y = choose|y: &[u32]|
            y@ == rows[i] && #[trigger] sampled(arithmetic, sampler, y, second[i]);
        law_same_state_draws_the_same_token(arithmetic, sampler, x, y, first[i], second[i]);
    }
    assert(first =~= second);
}

/// A request generates in batches what its sampler would choose alone: with arithmetic that always
/// gives the same results, sampling its rows of logits one after the other, starting from the
/// sampler that the request was submitted with, returns the same tokens.
pub proof fn law_batches_sample_as_alone<A: SamplingArithmetic>(
    arithmetic: &A,
    start: SamplerModel,
    rows: Seq<&[u32]>,
    tokens: Seq<i32>,
    samplers: Seq<SamplerModel>,
    alone: Seq<i32>,
)
    requires
        steady(arithmetic),
        drawn(arithmetic, start, Seq::new(rows.len(), |i: int| rows[i]@), tokens),
        samplers.len() == rows.len() + 1,
        samplers[0] == start,
        alone.len() == rows.len(),
        forall|i: int|
            0 <= i < rows.len() ==> sample_outcome(
                arithmetic,
                samplers[i],
                rows[i],
                Ok(#[trigger] alone[i]),
                samplers[i + 1],
            ),
    ensures
        tokens == alone,
{
    let seen = Seq::new(rows.len(), |i: int| rows[i]@);
    lemma_samplers_advance(arithmetic, start, rows, samplers, alone, rows.len() as int);
    assert forall|i: int| 0 <= i < alone.len() implies draws(
        arithmetic,
        advanced(start, i),
        seen[i],
        #[trigger] alone[i],
    ) by {
        lemma_samplers_advance(arithmetic, start, rows, samplers, alone, i);
        assert(sample_outcome(arithmetic, samplers[i], rows[i], Ok(alone[i]), samplers[i + 1]));
        assert(sampled(arithmetic, samplers[i], rows[i], alone[i]));
    }
    law_rows_fix_the_draws(arithmetic, start, seen, tokens, alone);
}

proof fn lemma_samplers_advance<A: SamplingArithmetic>(
    arithmetic: &A,
    start: SamplerModel,
    rows: Seq<&[u32]>,
    samplers: Seq<SamplerModel>,
    alone: Seq<i32>,
    n: int,
)
    requires
        samplers.len() == rows.len() + 1,
        samplers[0] == start,
        alone.len() == rows.len(),
        forall|i: int|
            0 <= i < rows.len() ==> sample_outcome(
                arithmetic,
                samplers[i],
                rows[i],
                Ok(#[trigger] alone[i]),
                samplers[i + 1],
            ),
        0 <= n <= rows.len(),
    ensures
        samplers[n] == advanced(start, n),
    decreases n,
{
    if n > 0 {
        lemma_samplers_advance(arithmetic, start, rows, samplers, alone, n - 1);
        let k = n - 1;
        assert(sample_outcome(arithmetic, samplers[k], rows[k], Ok(alone[k]), samplers[k + 1]));
    }
}

} // verus!
