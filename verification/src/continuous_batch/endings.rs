//! How requests end: what a submitted request is owed, from its submission to its last token.

use crate::continuous_batch::batch::{ContinuousBatchError, RowModel};
use crate::continuous_batch::completion::limit_changed;
use crate::continuous_batch::histories::finished_are_old;
use crate::continuous_batch::laws::lemma_settle_keeps_others;
use crate::continuous_batch::model::{
    has_row, reservations_of, FinishedModel, RequestModel, RequestPhase, SchedulerModel,
};
use crate::continuous_batch::sampling::with_samplers;
use crate::continuous_batch::soundness::{
    distinct_rows, law_complete_inv, lemma_promote_front_inv, lemma_restored,
};
use crate::continuous_batch::{cancelled, submitted, CancelledGeneration};
use crate::generation::sampling::SamplerModel;
use crate::paged_kv::RequestId;
use vstd::prelude::*;

verus! {

/// Tokens end a request nowhere but at their end: none before the last one is an end token.
pub open spec fn ends_last(eos: Seq<i32>, generated: Seq<i32>) -> bool {
    forall|i: int, j: int|
        0 <= i < generated.len() - 1 && 0 <= j < eos.len() ==> #[trigger] generated[i]
            != #[trigger] eos[j]
}

/// The last of some tokens is an end token.
pub open spec fn ends_in(eos: Seq<i32>, generated: Seq<i32>) -> bool {
    generated.len() > 0 && exists|j: int|
        0 <= j < eos.len() && #[trigger] eos[j] == generated[generated.len() - 1]
}

/// A finished request has what was asked for: it ended with its first end token or at its limit.
pub open spec fn ended_as_asked(
    prompt: Seq<i32>,
    max_new_tokens: usize,
    eos: Seq<i32>,
    finished: FinishedModel,
) -> bool {
    &&& finished.prompt == prompt
    &&& finished.generated.len() <= max_new_tokens
    &&& ends_last(eos, finished.generated)
    &&& finished.stopped_on_eos == ends_in(eos, finished.generated)
    &&& !finished.stopped_on_eos ==> finished.generated.len() == max_new_tokens
}

/// A running request has not ended: none of its tokens is an end token, and it has fewer than it
/// asked for.
pub open spec fn runs_as_asked(
    prompt: Seq<i32>,
    max_new_tokens: usize,
    eos: Seq<i32>,
    request: RequestModel,
) -> bool {
    &&& request.prompt == prompt
    &&& request.max_new_tokens == max_new_tokens
    &&& request.eos == eos
    &&& request.generated.len() < max_new_tokens
    &&& forall|i: int, j: int|
        0 <= i < request.generated.len() && 0 <= j < eos.len() ==> #[trigger] request.generated[i]
            != #[trigger] eos[j]
}

/// Wherever request `k` stands, it stands there as it was asked for.
pub open spec fn as_asked(
    m: SchedulerModel,
    k: u64,
    prompt: Seq<i32>,
    max_new_tokens: usize,
    eos: Seq<i32>,
) -> bool {
    &&& forall|i: int|
        0 <= i < m.pending.len() && (#[trigger] m.pending[i]).id.0 == k ==> m.pending[i].prompt
            == prompt && m.pending[i].max_new_tokens == max_new_tokens && m.pending[i].eos == eos
    &&& m.active.contains_key(k) ==> runs_as_asked(prompt, max_new_tokens, eos, m.active[k])
    &&& forall|i: int|
        0 <= i < m.finished.len() && (#[trigger] m.finished[i]).request_id.0 == k
            ==> ended_as_asked(prompt, max_new_tokens, eos, m.finished[i])
}

/// Request `k` is queued, runs or has finished and was not taken out.
pub open spec fn known(m: SchedulerModel, k: u64) -> bool {
    ||| exists|i: int| 0 <= i < m.pending.len() && (#[trigger] m.pending[i]).id.0 == k
    ||| m.active.contains_key(k)
    ||| exists|i: int| 0 <= i < m.finished.len() && (#[trigger] m.finished[i]).request_id.0 == k
}

/// A request that is accepted stands as it was asked for, under a number that no other request has;
/// requests that stood as asked for before still do.
pub proof fn law_submitted_request_stands_as_asked(
    m: SchedulerModel,
    prompt: Seq<i32>,
    max_new_tokens: usize,
    eos: Seq<i32>,
    sampler: Option<SamplerModel>,
    id: RequestId,
    after: SchedulerModel,
)
    requires
        m.inv(),
        finished_are_old(m),
        submitted(m, prompt, max_new_tokens, eos, sampler, Ok(id), after),
    ensures
        !known(m, id.0),
        known(after, id.0),
        as_asked(after, id.0, prompt, max_new_tokens, eos),
        max_new_tokens > 0 ==> after.pending.last().id == id && after.pending.last().sampler
            == sampler,
        forall|k: u64| #[trigger] known(m, k) ==> known(after, k),
        forall|k: u64, p: Seq<i32>, n: usize, e: Seq<i32>|
            k != id.0 && #[trigger] as_asked(m, k, p, n, e) ==> as_asked(after, k, p, n, e),
{
    let k = id.0;
    if exists|i: int| 0 <= i < m.pending.len() && (#[trigger] m.pending[i]).id.0 == k {
        let i = choose|i: int| 0 <= i < m.pending.len() && (#[trigger] m.pending[i]).id.0 == k;
        assert(m.pending_sound(i));
    }
    if m.active.contains_key(k) {
        assert(m.active_sound(k));
    }
    if max_new_tokens == 0 {
        assert(after.finished[m.finished.len() as int].request_id.0 == k);
    } else {
        assert(after.pending[m.pending.len() as int].id.0 == k);
    }
    assert forall|x: u64| #[trigger] known(m, x) implies known(after, x) by {
        if exists|i: int| 0 <= i < m.pending.len() && (#[trigger] m.pending[i]).id.0 == x {
            let i = choose|i: int| 0 <= i < m.pending.len() && (#[trigger] m.pending[i]).id.0 == x;
            assert(after.pending[i].id.0 == x);
        } else if !m.active.contains_key(x) {
            let i = choose|i: int|
                0 <= i < m.finished.len() && (#[trigger] m.finished[i]).request_id.0 == x;
            assert(after.finished[i].request_id.0 == x);
        }
    }
    assert forall|x: u64, p: Seq<i32>, n: usize, e: Seq<i32>|
        x != k && #[trigger] as_asked(m, x, p, n, e) implies as_asked(after, x, p, n, e) by {
        assert forall|i: int|
            0 <= i < after.pending.len() && (#[trigger] after.pending[i]).id.0 == x implies i
            < m.pending.len() && after.pending[i] == m.pending[i] by {}
        assert forall|i: int|
            0 <= i < after.finished.len() && (#[trigger] after.finished[i]).request_id.0
                == x implies i < m.finished.len() && after.finished[i] == m.finished[i] by {}
    }
}

/// Admitting requests keeps them as asked for, and loses none.
proof fn lemma_promoted_as_asked(
    m: SchedulerModel,
    k: u64,
    prompt: Seq<i32>,
    max_new_tokens: usize,
    eos: Seq<i32>,
)
    requires
        m.inv(),
        as_asked(m, k, prompt, max_new_tokens, eos),
    ensures
        as_asked(m.promoted(), k, prompt, max_new_tokens, eos),
        known(m, k) ==> known(m.promoted(), k),
    decreases m.pending.len(),
{
    if m.can_admit() {
        let after = m.promote_front();
        let front = m.pending[0];
        lemma_promote_front_inv(m);
        assert(m.pending_sound(0));
        assert forall|i: int|
            0 <= i < after.pending.len() && (#[trigger] after.pending[i]).id.0 == k implies
            after.pending[i].prompt == prompt && after.pending[i].max_new_tokens == max_new_tokens
            && after.pending[i].eos == eos by {
            assert(after.pending[i] == m.pending[i + 1]);
        }
        if known(m, k) && front.id.0 != k && !m.active.contains_key(k) {
            if exists|i: int| 0 <= i < m.pending.len() && (#[trigger] m.pending[i]).id.0 == k {
                let i = choose|i: int|
                    0 <= i < m.pending.len() && (#[trigger] m.pending[i]).id.0 == k;
                assert(after.pending[i - 1] == m.pending[i]);
            }
        }
        lemma_promoted_as_asked(after, k, prompt, max_new_tokens, eos);
    }
}

/// What bears on a request as it was asked for.
spec fn same_asked(a: SchedulerModel, b: SchedulerModel) -> bool {
    &&& a.pending == b.pending
    &&& a.finished == b.finished
    &&& forall|k: u64| #[trigger] a.active.contains_key(k) == b.active.contains_key(k)
    &&& forall|k: u64|
        a.active.contains_key(k) ==> (#[trigger] a.active[k]).generated == b.active[k].generated
            && a.active[k].prompt == b.active[k].prompt && a.active[k].eos == b.active[k].eos
            && a.active[k].max_new_tokens == b.active[k].max_new_tokens
}

proof fn lemma_same_asked(
    a: SchedulerModel,
    b: SchedulerModel,
    k: u64,
    prompt: Seq<i32>,
    max_new_tokens: usize,
    eos: Seq<i32>,
)
    requires
        same_asked(a, b),
        as_asked(a, k, prompt, max_new_tokens, eos),
    ensures
        as_asked(b, k, prompt, max_new_tokens, eos),
        known(a, k) ==> known(b, k),
{
    assert(a.active.contains_key(k) == b.active.contains_key(k));
    if a.active.contains_key(k) {
        assert(a.active[k].generated == b.active[k].generated);
    }
}

/// Asking for a batch keeps requests as asked for, and loses none.
pub proof fn law_scheduling_keeps_requests_as_asked(
    m: SchedulerModel,
    k: u64,
    prompt: Seq<i32>,
    max_new_tokens: usize,
    eos: Seq<i32>,
)
    requires
        m.inv(),
        as_asked(m, k, prompt, max_new_tokens, eos),
    ensures
        as_asked(m.schedule().after, k, prompt, max_new_tokens, eos),
        known(m, k) ==> known(m.schedule().after, k),
{
    if m.in_flight is None && m.next_batch < u64::MAX {
        let p = m.promoted();
        let after = m.schedule().after;
        lemma_promoted_as_asked(m, k, prompt, max_new_tokens, eos);
        assert(same_asked(p, after));
        lemma_same_asked(p, after, k, prompt, max_new_tokens, eos);
    }
}

/// One row's token keeps requests as asked for.
proof fn lemma_settle_as_asked(
    m: SchedulerModel,
    row: RowModel,
    token: i32,
    k: u64,
    prompt: Seq<i32>,
    max_new_tokens: usize,
    eos: Seq<i32>,
)
    requires
        m.active.contains_key(row.request_id.0),
        as_asked(m, k, prompt, max_new_tokens, eos),
    ensures
        as_asked(m.settle(row, token), k, prompt, max_new_tokens, eos),
        known(m, k) ==> known(m.settle(row, token), k),
        m.settle(row, token).pending == m.pending,
{
    let after = m.settle(row, token);
    let id = row.request_id.0;
    let request = m.active[id];
    let generated = request.generated.push(token);
    if id == k {
        assert(runs_as_asked(prompt, max_new_tokens, eos, request));
        if eos.contains(token) {
            let j = choose|j: int| 0 <= j < eos.len() && eos[j] == token;
            assert(eos[j] == generated[generated.len() - 1]);
        }
        assert forall|i: int, j: int|
            0 <= i < generated.len() - 1 && 0 <= j < eos.len() implies #[trigger] generated[i]
            != #[trigger] eos[j] by {
            assert(generated[i] == request.generated[i]);
        }
        assert forall|j: int| 0 <= j < eos.len() && !eos.contains(token) implies #[trigger] eos[j]
            != token by {}
    }
    assert forall|i: int|
        0 <= i < after.finished.len() && (#[trigger] after.finished[i]).request_id.0 == k implies
        ended_as_asked(prompt, max_new_tokens, eos, after.finished[i]) by {
        if i < m.finished.len() {
            assert(after.finished[i] == m.finished[i]);
        }
    }
    if known(m, k) {
        if exists|i: int| 0 <= i < m.finished.len() && (#[trigger] m.finished[i]).request_id.0 == k {
            let i = choose|i: int|
                0 <= i < m.finished.len() && (#[trigger] m.finished[i]).request_id.0 == k;
            assert(after.finished[i].request_id.0 == k);
        } else if m.active.contains_key(k) && !after.active.contains_key(k) {
            assert(after.finished[m.finished.len() as int].request_id.0 == k);
        }
    }
}

/// The tokens of rows keep requests as asked for.
proof fn lemma_settle_all_as_asked(
    m: SchedulerModel,
    rows: Seq<RowModel>,
    tokens: Seq<i32>,
    k: u64,
    prompt: Seq<i32>,
    max_new_tokens: usize,
    eos: Seq<i32>,
)
    requires
        rows.len() == tokens.len(),
        distinct_rows(rows),
        forall|i: int|
            0 <= i < rows.len() ==> m.active.contains_key((#[trigger] rows[i]).request_id.0),
        as_asked(m, k, prompt, max_new_tokens, eos),
    ensures
        as_asked(m.settle_all(rows, tokens), k, prompt, max_new_tokens, eos),
        known(m, k) ==> known(m.settle_all(rows, tokens), k),
    decreases rows.len(),
{
    if rows.len() > 0 {
        let fewer = rows.drop_last();
        let less = tokens.drop_last();
        lemma_fewer_rows(m, rows);
        lemma_settle_all_as_asked(m, fewer, less, k, prompt, max_new_tokens, eos);
        lemma_last_row_is_new(rows);
        lemma_settle_keeps_others(m, fewer, less, rows.last().request_id.0);
        lemma_settle_as_asked(
            m.settle_all(fewer, less),
            rows.last(),
            tokens.last(),
            k,
            prompt,
            max_new_tokens,
            eos,
        );
    }
}

proof fn lemma_fewer_rows(m: SchedulerModel, rows: Seq<RowModel>)
    requires
        rows.len() > 0,
        distinct_rows(rows),
        forall|i: int|
            0 <= i < rows.len() ==> m.active.contains_key((#[trigger] rows[i]).request_id.0),
    ensures
        distinct_rows(rows.drop_last()),
        forall|i: int|
            0 <= i < rows.len() - 1 ==> m.active.contains_key(
                (#[trigger] rows.drop_last()[i]).request_id.0,
            ),
        m.active.contains_key(rows.last().request_id.0),
{
    let fewer = rows.drop_last();
    assert forall|i: int, j: int| 0 <= i < j < fewer.len() implies (#[trigger] fewer[i]).request_id.0
        != (#[trigger] fewer[j]).request_id.0 by {
        assert(fewer[i] == rows[i]);
        assert(fewer[j] == rows[j]);
    }
    assert forall|i: int| 0 <= i < rows.len() - 1 implies m.active.contains_key(
        (#[trigger] fewer[i]).request_id.0,
    ) by {
        assert(fewer[i] == rows[i]);
    }
    assert(rows[rows.len() - 1] == rows.last());
}

proof fn lemma_last_row_is_new(rows: Seq<RowModel>)
    requires
        rows.len() > 0,
        distinct_rows(rows),
    ensures
        !has_row(rows.drop_last(), rows.last().request_id.0),
{
    let fewer = rows.drop_last();
    let k = rows.last().request_id.0;
    if has_row(fewer, k) {
        let i = choose|i: int| 0 <= i < fewer.len() && (#[trigger] fewer[i]).request_id.0 == k;
        assert(rows[i].request_id.0 != rows[rows.len() - 1].request_id.0);
    }
}

proof fn lemma_batch_rows(m: SchedulerModel)
    requires
        m.inv(),
        m.in_flight is Some,
    ensures
        distinct_rows((m.in_flight->0).rows),
        forall|i: int|
            0 <= i < (m.in_flight->0).rows.len() ==> m.active.contains_key(
                (#[trigger] (m.in_flight->0).rows[i]).request_id.0,
            ),
{
    let batch = m.in_flight->0;
    assert forall|i: int| 0 <= i < batch.rows.len() implies m.active.contains_key(
        (#[trigger] batch.rows[i]).request_id.0,
    ) by {
        assert(m.row_sound(batch, i));
    }
}

/// After a batch is completed every request stands as it was asked for: none that still runs has an
/// end token among its tokens or all that it asked for, and one that finished stopped exactly where
/// its last token is an end token, and has as many tokens as its limit otherwise. No request is
/// lost.
pub proof fn law_completion_ends_requests_as_asked(
    m: SchedulerModel,
    batch_id: u64,
    tokens: Seq<i32>,
    k: u64,
    prompt: Seq<i32>,
    max_new_tokens: usize,
    eos: Seq<i32>,
)
    requires
        m.inv(),
        m.complete_error(batch_id, tokens) is None,
        as_asked(m, k, prompt, max_new_tokens, eos),
    ensures
        as_asked(m.complete_state(tokens), k, prompt, max_new_tokens, eos),
        known(m, k) ==> known(m.complete_state(tokens), k),
{
    let rows = (m.in_flight->0).rows;
    let begun = SchedulerModel {
        kv: m.kv.commit_all(reservations_of(rows)),
        in_flight: None,
        ..m
    };
    lemma_batch_rows(m);
    assert(as_asked(begun, k, prompt, max_new_tokens, eos));
    assert(same_asked(m, begun));
    lemma_same_asked(m, begun, k, prompt, max_new_tokens, eos);
    lemma_settle_all_as_asked(begun, rows, tokens, k, prompt, max_new_tokens, eos);
}

/// A row's token ends its request exactly where it is one of the request's end tokens or the last
/// that the request asked for. A request that ends is among the finished ones, with the token, and
/// has no pages left; one that goes on has the token and waits to feed it.
pub proof fn law_completion_settles_a_row(
    m: SchedulerModel,
    batch_id: u64,
    tokens: Seq<i32>,
    at: int,
)
    requires
        m.inv(),
        m.complete_error(batch_id, tokens) is None,
        0 <= at < tokens.len(),
    ensures
        ({
            let row = (m.in_flight->0).rows[at];
            let k = row.request_id.0;
            let request = m.active[k];
            let token = tokens[at];
            let after = m.complete_state(tokens);
            let stops = exists|j: int| 0 <= j < request.eos.len() && #[trigger] request.eos[j] == token;
            let ends = stops || request.generated.len() + 1 == request.max_new_tokens;
            &&& m.active.contains_key(k)
            &&& after.active.contains_key(k) == !ends
            &&& after.kv.sequences.contains_key(k) == !ends
            &&& !ends ==> after.active[k].generated == request.generated.push(token)
                && after.active[k].phase == RequestPhase::AwaitingDecode(token)
                && after.active[k].prompt == request.prompt && after.active[k].eos == request.eos
                && after.active[k].max_new_tokens == request.max_new_tokens
                && after.active[k].sampler == request.sampler
            &&& ends ==> exists|i: int|
                m.finished.len() <= i < after.finished.len() && #[trigger] after.finished[i] == (
                FinishedModel {
                    request_id: RequestId(k),
                    prompt: request.prompt,
                    generated: request.generated.push(token),
                    stopped_on_eos: stops,
                })
            &&& m.finished == after.finished.take(m.finished.len() as int)
            &&& after.finished.len() <= m.finished.len() + tokens.len()
        }),
{
    let rows = (m.in_flight->0).rows;
    let begun = SchedulerModel {
        kv: m.kv.commit_all(reservations_of(rows)),
        in_flight: None,
        ..m
    };
    lemma_batch_rows(m);
    assert(m.active_sound(rows[at].request_id.0));
    law_complete_inv(m, batch_id, tokens);
    lemma_settle_all_row(begun, rows, tokens, at);
    let after = m.complete_state(tokens);
    assert(after.active.contains_key(rows[at].request_id.0) == after.kv.sequences.contains_key(
        rows[at].request_id.0,
    ));
}

proof fn lemma_settle_all_row(m: SchedulerModel, rows: Seq<RowModel>, tokens: Seq<i32>, at: int)
    requires
        rows.len() == tokens.len(),
        distinct_rows(rows),
        forall|i: int|
            0 <= i < rows.len() ==> m.active.contains_key((#[trigger] rows[i]).request_id.0),
        forall|i: int|
            0 <= i < rows.len() ==> m.active[(
            #[trigger] rows[i]).request_id.0].generated.len()
                < m.active[rows[i].request_id.0].max_new_tokens,
        -1 <= at < rows.len(),
    ensures
        ({
            let after = m.settle_all(rows, tokens);
            &&& m.finished == after.finished.take(m.finished.len() as int)
            &&& m.finished.len() <= after.finished.len() <= m.finished.len() + tokens.len()
            &&& at >= 0 ==> {
                let k = rows[at].request_id.0;
                let request = m.active[k];
                let token = tokens[at];
                let stops = exists|j: int|
                    0 <= j < request.eos.len() && #[trigger] request.eos[j] == token;
                let ends = stops || request.generated.len() + 1 == request.max_new_tokens;
                &&& after.active.contains_key(k) == !ends
                &&& !ends ==> after.active[k].generated == request.generated.push(token)
                    && after.active[k].phase == RequestPhase::AwaitingDecode(token)
                    && after.active[k].prompt == request.prompt && after.active[k].eos
                    == request.eos && after.active[k].max_new_tokens == request.max_new_tokens
                    && after.active[k].sampler == request.sampler
                &&& ends ==> exists|i: int|
                    m.finished.len() <= i < after.finished.len() && #[trigger] after.finished[i]
                        == (FinishedModel {
                        request_id: RequestId(k),
                        prompt: request.prompt,
                        generated: request.generated.push(token),
                        stopped_on_eos: stops,
                    })
            }
        }),
    decreases rows.len(),
{
    if rows.len() > 0 {
        let fewer = rows.drop_last();
        let less = tokens.drop_last();
        let n = rows.len() - 1;
        lemma_fewer_rows(m, rows);
        assert forall|i: int| 0 <= i < fewer.len() implies m.active[(
        #[trigger] fewer[i]).request_id.0].generated.len()
            < m.active[fewer[i].request_id.0].max_new_tokens by {
            assert(fewer[i] == rows[i]);
        }
        let middle = m.settle_all(fewer, less);
        let after = m.settle_all(rows, tokens);
        lemma_last_row_is_new(rows);
        lemma_settle_keeps_others(m, fewer, less, rows.last().request_id.0);
        if at < n {
            lemma_settle_all_row(m, fewer, less, at);
            if at >= 0 {
                assert(fewer[at] == rows[at]);
                assert(rows[at].request_id.0 != rows[n].request_id.0);
                let k = rows[at].request_id.0;
                let request = m.active[k];
                let stops = exists|j: int|
                    0 <= j < request.eos.len() && #[trigger] request.eos[j] == tokens[at];
                if stops || request.generated.len() + 1 == request.max_new_tokens {
                    let i = choose|i: int|
                        m.finished.len() <= i < middle.finished.len()
                            && #[trigger] middle.finished[i] == (FinishedModel {
                            request_id: RequestId(k),
                            prompt: request.prompt,
                            generated: request.generated.push(tokens[at]),
                            stopped_on_eos: stops,
                        });
                    assert(after.finished[i] == middle.finished[i]);
                }
            }
        } else {
            lemma_settle_all_row(m, fewer, less, -1);
            let k = rows[n].request_id.0;
            let request = m.active[k];
            let stops = exists|j: int|
                0 <= j < request.eos.len() && #[trigger] request.eos[j] == tokens[n];
            assert(stops == request.eos.contains(tokens[n]));
            if stops || request.generated.len() + 1 == request.max_new_tokens {
                assert(after.finished[middle.finished.len() as int] == (FinishedModel {
                    request_id: RequestId(k),
                    prompt: request.prompt,
                    generated: request.generated.push(tokens[n]),
                    stopped_on_eos: stops,
                }));
            }
        }
        assert(after.finished.take(m.finished.len() as int) =~= m.finished) by {
            assert(middle.finished.take(m.finished.len() as int) == m.finished);
            assert forall|i: int| 0 <= i < m.finished.len() implies #[trigger] after.finished[i]
                == m.finished[i] by {
                assert(middle.finished.take(m.finished.len() as int)[i] == middle.finished[i]);
            }
        }
    } else {
        assert(m.finished.take(m.finished.len() as int) =~= m.finished);
    }
}

/// Rolling a batch back keeps requests as asked for, and loses none.
pub proof fn law_rollback_keeps_requests_as_asked(
    m: SchedulerModel,
    batch_id: u64,
    k: u64,
    prompt: Seq<i32>,
    max_new_tokens: usize,
    eos: Seq<i32>,
)
    requires
        m.inv(),
        m.batch_error(batch_id) is None,
        as_asked(m, k, prompt, max_new_tokens, eos),
    ensures
        as_asked(m.fail_state(), k, prompt, max_new_tokens, eos),
        known(m, k) ==> known(m.fail_state(), k),
{
    let batch = m.in_flight->0;
    let after = m.fail_state();
    lemma_batch_rows(m);
    assert forall|i: int|
        #![trigger batch.rows[i]]
        0 <= i < batch.rows.len() implies m.active.contains_key(batch.rows[i].request_id.0) by {}
    lemma_restored(m.active, batch.kind, batch.rows);
    assert forall|j: u64| m.active.contains_key(j) implies (#[trigger] m.active[j]).generated
        == after.active[j].generated && m.active[j].prompt == after.active[j].prompt
        && m.active[j].eos == after.active[j].eos && m.active[j].max_new_tokens
        == after.active[j].max_new_tokens by {
        if has_row(batch.rows, j) {
            let i = choose|i: int|
                0 <= i < batch.rows.len() && (#[trigger] batch.rows[i]).request_id.0 == j;
            assert(batch.rows[i].request_id.0 == j);
        } else {
            assert(after.active[j] == m.active[j]);
        }
    }
    assert(same_asked(m, after));
    lemma_same_asked(m, after, k, prompt, max_new_tokens, eos);
}

/// Cancelling one request keeps every other as asked for, and loses none of them; what it returns of
/// the request is what was asked for and what it had.
pub proof fn law_cancelling_keeps_other_requests_as_asked(
    m: SchedulerModel,
    id: RequestId,
    result: Result<Option<CancelledGeneration>, ContinuousBatchError>,
    after: SchedulerModel,
    k: u64,
    prompt: Seq<i32>,
    max_new_tokens: usize,
    eos: Seq<i32>,
)
    requires
        m.inv(),
        cancelled(m, id, result, after),
        as_asked(m, k, prompt, max_new_tokens, eos),
    ensures
        as_asked(after, k, prompt, max_new_tokens, eos),
        known(m, k) && k != id.0 ==> known(after, k),
        k == id.0 ==> (result matches Ok(Some(c)) ==> c.request_id == id && c.prompt_token_ids@
            == prompt && c.generated_token_ids@.len() < max_new_tokens
            && !after.active.contains_key(k) && forall|i: int|
            0 <= i < after.pending.len() ==> (#[trigger] after.pending[i]).id != id),
{
    match m.pending_index(id) {
        Some(gone) => {
            let place = choose|i: int| m.queued_at(id, i);
            assert(m.queued_at(id, place));
            assert(m.pending_sound(gone));
            assert forall|i: int| 0 <= i < after.pending.len() implies #[trigger] after.pending[i]
                == m.pending[if i < gone {
                i
            } else {
                i + 1
            }] && after.pending[i].id != id by {
                let x = if i < gone {
                    i
                } else {
                    i + 1
                };
                assert(after.pending[i] == m.pending[x]);
                if x < gone {
                    assert(m.pending[x].id.0 < m.pending[gone].id.0);
                } else {
                    assert(m.pending[gone].id.0 < m.pending[x].id.0);
                }
            }
            assert forall|i: int|
                0 <= i < after.pending.len() && (#[trigger] after.pending[i]).id.0 == k implies
                after.pending[i].prompt == prompt && after.pending[i].max_new_tokens
                == max_new_tokens && after.pending[i].eos == eos by {
                let x = if i < gone {
                    i
                } else {
                    i + 1
                };
                assert(m.pending[x].id.0 == k);
            }
            if known(m, k) && k != id.0 {
                if exists|i: int| 0 <= i < m.pending.len() && (#[trigger] m.pending[i]).id.0 == k {
                    let i = choose|i: int|
                        0 <= i < m.pending.len() && (#[trigger] m.pending[i]).id.0 == k;
                    let x = if i < gone {
                        i
                    } else {
                        i - 1
                    };
                    assert(after.pending[x] == m.pending[i]);
                } else if !m.active.contains_key(k) {
                    let i = choose|i: int|
                        0 <= i < m.finished.len() && (#[trigger] m.finished[i]).request_id.0 == k;
                    assert(after.finished[i].request_id.0 == k);
                }
            }
        },
        None => {
            if known(m, k) && k != id.0 {
                if exists|i: int| 0 <= i < m.pending.len() && (#[trigger] m.pending[i]).id.0 == k {
                    let i = choose|i: int|
                        0 <= i < m.pending.len() && (#[trigger] m.pending[i]).id.0 == k;
                    assert(after.pending[i].id.0 == k);
                } else if !m.active.contains_key(k) {
                    let i = choose|i: int|
                        0 <= i < m.finished.len() && (#[trigger] m.finished[i]).request_id.0 == k;
                    assert(after.finished[i].request_id.0 == k);
                }
            }
            if m.active.contains_key(id.0) {
                assert(m.active_sound(id.0));
            }
            assert forall|i: int| 0 <= i < after.pending.len() implies (
            #[trigger] after.pending[i]).id != id by {
                assert(!m.queued_at(id, i));
            }
        },
    }
}

/// Taking a finished request out, changing the token limit and putting samplers in place keep every
/// request as asked for.
pub proof fn law_bookkeeping_keeps_requests_as_asked(
    m: SchedulerModel,
    limit: usize,
    result: Result<(), ContinuousBatchError>,
    limited: SchedulerModel,
    samplers: Seq<(RequestId, SamplerModel)>,
    k: u64,
    prompt: Seq<i32>,
    max_new_tokens: usize,
    eos: Seq<i32>,
)
    requires
        limit_changed(m, limit, result, limited),
        as_asked(m, k, prompt, max_new_tokens, eos),
    ensures
        m.finished.len() > 0 ==> as_asked(
            (SchedulerModel { finished: m.finished.drop_first(), ..m }),
            k,
            prompt,
            max_new_tokens,
            eos,
        ),
        as_asked(limited, k, prompt, max_new_tokens, eos),
        as_asked(with_samplers(m, samplers), k, prompt, max_new_tokens, eos),
        known(m, k) ==> known(limited, k) && known(with_samplers(m, samplers), k),
{
    if m.finished.len() > 0 {
        let after = SchedulerModel { finished: m.finished.drop_first(), ..m };
        assert forall|i: int|
            0 <= i < after.finished.len() && (#[trigger] after.finished[i]).request_id.0
                == k implies ended_as_asked(prompt, max_new_tokens, eos, after.finished[i]) by {
            assert(after.finished[i] == m.finished[i + 1]);
        }
    }
    assert(same_asked(m, limited));
    lemma_same_asked(m, limited, k, prompt, max_new_tokens, eos);
    lemma_samplers_same_asked(m, samplers);
    lemma_same_asked(m, with_samplers(m, samplers), k, prompt, max_new_tokens, eos);
}

proof fn lemma_samplers_same_asked(m: SchedulerModel, samplers: Seq<(RequestId, SamplerModel)>)
    ensures
        same_asked(m, with_samplers(m, samplers)),
    decreases samplers.len(),
{
    if samplers.len() > 0 {
        lemma_samplers_same_asked(m, samplers.drop_last());
    }
}

} // verus!
