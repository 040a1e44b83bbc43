//! What holds of a scheduler across operations.

use crate::continuous_batch::batch::{
    joined_tokens, ContinuousBatchError, RowModel, ScheduledBatchKind,
};
use crate::continuous_batch::model::{
    ascending_ids, budget_weight, gather, has_row, listing, lists, next_tokens, reservations_of,
    restored, Gathered, RequestModel, RequestPhase, SchedulerModel,
};
use crate::continuous_batch::sampling::{advanced_samplers, with_samplers};
use crate::continuous_batch::soundness::{
    batchable, distinct_rows, law_promoted_inv, law_rollback_undoes_gather, lemma_batchable,
    lemma_gather, lemma_promote_front_inv, lemma_restored, row_gathered,
};
use crate::continuous_batch::{cancelled, CancelledGeneration};
use crate::generation::sampling::SamplerModel;
use crate::paged_kv::{lemma_pages_for_order, pages_for, KvModel, RequestId, SequenceModel};
use crate::paged_kv_laws::{
    law_empty_cache_is_all_free, law_pages_are_conserved, page_weight,
};
use crate::rng::after_draw;
use crate::sums::{key_bound, lemma_sum_change, lemma_sum_order};
use vstd::prelude::*;

verus! {

/// The requests below `bound` that satisfy `p`, in ascending order.
spec fn listed_below(
    active: Map<u64, RequestModel>,
    p: spec_fn(u64, RequestModel) -> bool,
    bound: nat,
) -> Seq<u64>
    decreases bound,
{
    if bound == 0 {
        Seq::empty()
    } else {
        let k = (bound - 1) as u64;
        let rest = listed_below(active, p, (bound - 1) as nat);
        if active.contains_key(k) && p(k, active[k]) {
            rest.push(k)
        } else {
            rest
        }
    }
}

proof fn lemma_listed_below(
    active: Map<u64, RequestModel>,
    p: spec_fn(u64, RequestModel) -> bool,
    bound: nat,
)
    requires
        bound <= key_bound(),
    ensures
        ascending_ids(listed_below(active, p, bound)),
        forall|k: u64| #[trigger]
            listed_below(active, p, bound).contains(k) <==> k < bound && active.contains_key(k)
                && p(k, active[k]),
    decreases bound,
{
    if bound > 0 {
        let rest = listed_below(active, p, (bound - 1) as nat);
        let all = listed_below(active, p, bound);
        let last = (bound - 1) as u64;
        lemma_listed_below(active, p, (bound - 1) as nat);
        assert forall|i: int, j: int| 0 <= i < j < all.len() implies all[i] < all[j] by {
            if j == rest.len() {
                assert(rest.contains(rest[i]));
            }
        }
        assert forall|k: u64| #[trigger] all.contains(k) <==> k < bound && active.contains_key(k)
            && p(k, active[k]) by {
            if all.contains(k) {
                let i = choose|i: int| 0 <= i < all.len() && all[i] == k;
                if i < rest.len() {
                    assert(rest[i] == k);
                    assert(rest.contains(k));
                }
            }
            if k < bound && active.contains_key(k) && p(k, active[k]) {
                if k == last {
                    assert(all[all.len() - 1] == k);
                } else {
                    assert(rest.contains(k));
                    let i = choose|i: int| 0 <= i < rest.len() && rest[i] == k;
                    assert(all[i] == k);
                }
            }
        }
    }
}

/// Requests can always be listed.
pub proof fn lemma_listing_lists(
    active: Map<u64, RequestModel>,
    p: spec_fn(u64, RequestModel) -> bool,
)
    ensures
        lists(active, p, listing(active, p)),
{
    let all = listed_below(active, p, key_bound());
    lemma_listed_below(active, p, key_bound());
    assert(lists(active, p, all));
}

/// The requests that wait for their next token can be batched together.
pub(crate) proof fn lemma_decode_batchable(m: SchedulerModel)
    ensures
        batchable(m, ScheduledBatchKind::Decode, m.decode_candidates()),
{
    let p = |k: u64, r: RequestModel| r.phase is AwaitingDecode;
    lemma_listing_lists(m.active, p);
    let ids = m.decode_candidates();
    assert forall|i: int| 0 <= i < ids.len() implies m.active.contains_key(#[trigger] ids[i])
        && m.active[ids[i]].phase is AwaitingDecode by {
        assert(ids.contains(ids[i]));
    }
    assert(ids.no_duplicates());
}

/// The requests with ready prompts of one length can be batched together.
pub(crate) proof fn lemma_bucket_batchable(m: SchedulerModel, n: nat)
    ensures
        batchable(m, ScheduledBatchKind::Prefill, m.bucket(n)),
        forall|i: int|
            0 <= i < m.bucket(n).len() ==> m.prefill_ready(
                #[trigger] m.bucket(n)[i],
                m.active[m.bucket(n)[i]],
            ) && m.active[m.bucket(n)[i]].prompt.len() == n,
{
    lemma_listing_lists(m.active, m.ready_of_length(n));
    let ids = m.bucket(n);
    assert forall|i: int| 0 <= i < ids.len() implies m.active.contains_key(#[trigger] ids[i])
        && m.prefill_ready(ids[i], m.active[ids[i]]) && m.active[ids[i]].prompt.len() == n by {
        assert(ids.contains(ids[i]));
        assert(m.ready_of_length(n)(ids[i], m.active[ids[i]]));
    }
    assert(ids.no_duplicates());
}

/// Rolling back a batch that was just put together restores every request and every page; only
/// identifiers are used up and the turn of prompts and next tokens stays passed on.
proof fn lemma_attempt_undone(
    m: SchedulerModel,
    kind: ScheduledBatchKind,
    ids: Seq<u64>,
    limit: int,
    prefer_prefill: bool,
)
    requires
        m.inv(),
        m.in_flight is None,
        m.next_batch < u64::MAX,
        batchable(m, kind, ids),
        m.attempt(kind, ids, limit).result matches Ok(Some(_)),
    ensures
        ({
            let tried = m.attempt(kind, ids, limit);
            let launched = tried.after.launch((tried.result->Ok_0)->0, prefer_prefill);
            launched.fail_state() == (SchedulerModel {
                kv: KvModel { next_reservation: tried.after.kv.next_reservation, ..m.kv },
                prefer_prefill,
                next_batch: (m.next_batch + 1) as u64,
                ..m
            })
        }),
{
    let tried = m.attempt(kind, ids, limit);
    let g = gather(m.kv, m.active, ids, limit);
    let batch = (tried.result->Ok_0)->0;
    let launched = tried.after.launch(batch, prefer_prefill);
    lemma_batchable(m, kind, ids);
    lemma_gather(m.kv, m.active, ids, limit);
    law_rollback_undoes_gather(m.kv, m.active, ids, limit);
    let held = launched.active;
    assert forall|i: int|
        #![trigger g.rows[i]]
        0 <= i < g.rows.len() implies held.contains_key(g.rows[i].request_id.0) by {
        let k = g.rows[i].request_id.0;
        assert(has_row(g.rows, k));
        assert(ids.contains(k));
        let x = choose|x: int| 0 <= x < ids.len() && ids[x] == k;
        assert(m.active.contains_key(ids[x]));
    }
    lemma_restored(held, kind, g.rows);
    let back = restored(held, kind, g.rows);
    assert forall|k: u64| #[trigger] m.active.contains_key(k) implies back[k] == m.active[k] by {
        if has_row(g.rows, k) {
            let i = choose|i: int|
                0 <= i < g.rows.len() && (#[trigger] g.rows[i]).request_id.0 == k;
            assert(row_gathered(m.kv, m.active, g, i));
            assert(ids.contains(k));
            let x = choose|x: int| 0 <= x < ids.len() && ids[x] == k;
            assert(m.active.contains_key(ids[x]));
            assert(back[k] == (RequestModel {
                phase: SchedulerModel::phase_before(kind, g.rows[i]),
                ..held[k]
            }));
            assert(back[k] =~= m.active[k]);
        } else {
            assert(back[k] == held[k]);
        }
    }
    assert(back =~= m.active) by {
        assert forall|k: u64| back.contains_key(k) == m.active.contains_key(k) by {
            assert(held.contains_key(k) == m.active.contains_key(k));
        }
    }
    assert(launched.fail_state() =~= (SchedulerModel {
        kv: KvModel { next_reservation: tried.after.kv.next_reservation, ..m.kv },
        prefer_prefill,
        next_batch: (m.next_batch + 1) as u64,
        ..m
    }));
}

/// A scheduled batch that fails at once leaves every request as it was after admission and every
/// page where it was: nothing but identifiers is used up.
pub proof fn law_failed_batch_restores_requests(m: SchedulerModel)
    requires
        m.inv(),
        m.schedule().result matches Ok(Some(_)),
    ensures
        ({
            let after = m.schedule().after;
            after.fail_state() == (SchedulerModel {
                kv: KvModel { next_reservation: after.kv.next_reservation, ..m.promoted().kv },
                prefer_prefill: after.prefer_prefill,
                next_batch: (m.next_batch + 1) as u64,
                ..m.promoted()
            })
        }),
        m.schedule().after.fail_state().kv.free == m.kv.free,
{
    law_promoted_inv(m);
    let p = m.promoted();
    lemma_decode_batchable(p);
    let decode = p.decode_attempt();
    let prefill = p.prefill_attempt();
    let n = choose|n: nat| p.best_length(n);
    lemma_bucket_batchable(p, n);
    if exists|n: nat| p.best_length(n) {
        if prefill.result matches Ok(Some(_)) {
            lemma_attempt_undone(
                p,
                ScheduledBatchKind::Prefill,
                p.bucket(n),
                p.config.max_batch_tokens as int / n as int,
                false,
            );
        }
    }
    if decode.result matches Ok(Some(_)) {
        lemma_attempt_undone(
            p,
            ScheduledBatchKind::Decode,
            p.decode_candidates(),
            p.config.max_batch_tokens as int,
            true,
        );
    }
}

/// The rows of a batch with `n` tokens each hold that many tokens in all.
proof fn lemma_joined_length(rows: Seq<RowModel>, n: nat)
    requires
        forall|i: int| 0 <= i < rows.len() ==> (#[trigger] rows[i]).token_ids.len() == n,
    ensures
        joined_tokens(rows).len() == rows.len() * n,
    decreases rows.len(),
{
    if rows.len() > 0 {
        assert forall|i: int| 0 <= i < rows.drop_last().len() implies (
        #[trigger] rows.drop_last()[i]).token_ids.len() == n by {
            assert(rows.drop_last()[i] == rows[i]);
        }
        lemma_joined_length(rows.drop_last(), n);
        assert(rows[rows.len() - 1].token_ids.len() == n);
        assert((rows.len() - 1) * n + n == rows.len() * n) by (nonlinear_arith);
    } else {
        assert(0 * n == 0) by (nonlinear_arith);
    }
}

/// The rows of an attempt hold their requests' next tokens and are no more than allowed.
proof fn lemma_attempt_rows(
    m: SchedulerModel,
    kind: ScheduledBatchKind,
    ids: Seq<u64>,
    limit: int,
    n: nat,
)
    requires
        m.inv(),
        batchable(m, kind, ids),
        limit >= 0,
        forall|i: int| 0 <= i < ids.len() ==> next_tokens(m.active[#[trigger] ids[i]]).len() == n,
        m.attempt(kind, ids, limit).result matches Ok(Some(_)),
    ensures
        ({
            let batch = (m.attempt(kind, ids, limit).result->Ok_0)->0;
            &&& 0 < batch.rows.len() <= limit
            &&& forall|i: int|
                0 <= i < batch.rows.len() ==> (#[trigger] batch.rows[i]).token_ids.len() == n
        }),
{
    let g = gather(m.kv, m.active, ids, limit);
    lemma_batchable(m, kind, ids);
    lemma_gather(m.kv, m.active, ids, limit);
    assert forall|i: int| 0 <= i < g.rows.len() implies (#[trigger] g.rows[i]).token_ids.len()
        == n by {
        assert(row_gathered(m.kv, m.active, g, i));
        let k = g.rows[i].request_id.0;
        assert(has_row(g.rows, k));
        assert(ids.contains(k));
        let x = choose|x: int| 0 <= x < ids.len() && ids[x] == k;
        assert(next_tokens(m.active[ids[x]]).len() == n);
    }
}

/// A scheduled batch is rectangular and holds no more tokens than the limit.
pub proof fn law_batch_within_limits(m: SchedulerModel)
    requires
        m.inv(),
        m.schedule().result matches Ok(Some(_)),
    ensures
        ({
            let batch = (m.schedule().result->Ok_0)->0;
            &&& batch.rows.len() > 0
            &&& joined_tokens(batch.rows).len() <= m.config.max_batch_tokens
            &&& forall|i: int|
                0 <= i < batch.rows.len() ==> (#[trigger] batch.rows[i]).token_ids.len()
                    == batch.rows[0].token_ids.len()
            &&& batch.kind is Decode ==> batch.rows[0].token_ids.len() == 1
        }),
{
    law_promoted_inv(m);
    let p = m.promoted();
    let max = p.config.max_batch_tokens as int;
    let decode = p.decode_attempt();
    let prefill = p.prefill_attempt();
    if decode.result matches Ok(Some(_)) {
        let batch = (decode.result->Ok_0)->0;
        lemma_decode_batchable(p);
        let ids = p.decode_candidates();
        assert forall|i: int| 0 <= i < ids.len() implies next_tokens(
            p.active[#[trigger] ids[i]],
        ).len() == 1 by {
            assert(p.active.contains_key(ids[i]));
        }
        lemma_attempt_rows(p, ScheduledBatchKind::Decode, ids, max, 1);
        lemma_joined_length(batch.rows, 1);
    }
    if exists|n: nat| p.best_length(n) {
        let n = choose|n: nat| p.best_length(n);
        lemma_bucket_batchable(p, n);
        if prefill.result matches Ok(Some(_)) {
            let batch = (prefill.result->Ok_0)->0;
            let ids = p.bucket(n);
            assert(ids.len() > 0);
            assert(p.prefill_ready(ids[0], p.active[ids[0]]));
            assert(p.active.contains_key(ids[0]));
            assert(p.active_sound(ids[0]));
            assert(n > 0);
            assert forall|i: int| 0 <= i < ids.len() implies next_tokens(
                p.active[#[trigger] ids[i]],
            ).len() == n by {
                assert(p.prefill_ready(ids[i], p.active[ids[i]]));
            }
            let limit = max / n as int;
            vstd::arithmetic::div_mod::lemma_div_pos_is_pos(max, n as int);
            lemma_attempt_rows(p, ScheduledBatchKind::Prefill, ids, limit, n);
            lemma_joined_length(batch.rows, n);
            vstd::arithmetic::div_mod::lemma_fundamental_div_mod(max, n as int);
            vstd::arithmetic::div_mod::lemma_mod_bound(max, n as int);
            assert(batch.rows.len() * n <= max) by (nonlinear_arith)
                requires
                    0 <= batch.rows.len() <= max / (n as int),
                    max == (n as int) * (max / (n as int)) + max % (n as int),
                    max % (n as int) >= 0,
                    n > 0,
            ;
        }
    }
}

/// An idle scheduler has every page back.
pub proof fn law_idle_returns_every_page(m: SchedulerModel)
    requires
        m.inv(),
        m.active == Map::<u64, RequestModel>::empty(),
    ensures
        m.kv.free == KvModel::initial(m.kv.config).free,
        m.in_flight is None,
{
    assert(m.kv.sequences =~= Map::<u64, SequenceModel>::empty()) by {
        assert forall|k: u64| !m.kv.sequences.contains_key(k) by {
            assert(!m.active.contains_key(k));
        }
    }
    law_empty_cache_is_all_free(m.kv);
    if let Some(batch) = m.in_flight {
        assert(m.row_sound(batch, 0)) by {
            assert(batch.rows[0] == batch.rows[0]);
        }
    }
}

/// Requests are admitted in order of arrival: those admitted are the first ones of the queue.
pub proof fn law_admission_is_first_come(m: SchedulerModel) -> (n: int)
    requires
        m.inv(),
    ensures
        0 <= n <= m.pending.len(),
        m.promoted().pending == m.pending.skip(n),
        forall|i: int|
            0 <= i < n ==> m.promoted().active.contains_key((#[trigger] m.pending[i]).id.0),
    decreases m.pending.len(),
{
    if m.can_admit() {
        lemma_promote_front_inv(m);
        let next = m.promote_front();
        law_promoted_inv(next);
        let rest = law_admission_is_first_come(next);
        assert(m.pending.skip(rest + 1) =~= next.pending.skip(rest));
        assert forall|i: int| 0 <= i < rest + 1 implies m.promoted().active.contains_key(
            (#[trigger] m.pending[i]).id.0,
        ) by {
            if i == 0 {
                assert(next.active.contains_key(m.pending[0].id.0));
            } else {
                assert(next.pending[i - 1] == m.pending[i]);
            }
        }
        rest + 1
    } else {
        assert(m.pending.skip(0) =~= m.pending);
        0
    }
}

/// A request that was cancelled is unknown afterwards: cancelling it again finds nothing and
/// changes nothing.
pub proof fn law_cancel_is_idempotent(
    m: SchedulerModel,
    id: RequestId,
    first: Result<Option<CancelledGeneration>, ContinuousBatchError>,
    middle: SchedulerModel,
    second: Result<Option<CancelledGeneration>, ContinuousBatchError>,
    after: SchedulerModel,
)
    requires
        m.inv(),
        cancelled(m, id, first, middle),
        first matches Ok(Some(_)),
        cancelled(middle, id, second, after),
    ensures
        second matches Ok(None),
        after == middle,
{
    match m.pending_index(id) {
        Some(i) => {
            let place = choose|i: int| m.queued_at(id, i);
            assert(m.queued_at(id, place));
            assert(m.pending_sound(place)) by {
                assert(m.pending[place] == m.pending[place]);
            }
            assert forall|j: int| !middle.queued_at(id, j) by {
                if middle.queued_at(id, j) {
                    let x = if j < i { j } else { j + 1 };
                    assert(middle.pending[j] == m.pending[x]);
                    if x < i {
                        assert(m.pending[x].id.0 < m.pending[i].id.0);
                    } else {
                        assert(m.pending[i].id.0 < m.pending[x].id.0);
                    }
                }
            }
        },
        None => {
            assert forall|j: int| !middle.queued_at(id, j) by {
                if middle.queued_at(id, j) {
                    assert(m.queued_at(id, j));
                }
            }
        },
    }
}

/// With whole sequences reserved, an admitted request that waits always has room for its next
/// pass.
pub proof fn law_reserved_request_has_room(m: SchedulerModel, k: u64)
    requires
        m.inv(),
        m.reserves(),
        m.active.contains_key(k),
        !(m.active[k].phase is InFlight),
    ensures
        m.kv.can_append(RequestId(k), next_tokens(m.active[k]).len() as usize),
{
    let r = m.active[k];
    let s = m.kv.sequences[k];
    let block = m.kv.config.block_size as int;
    let count = next_tokens(r).len();
    assert(m.active_sound(k));
    assert(m.kv.sequence_consistent(k));
    let held = page_weight(m.kv.sequences);
    let budget = budget_weight(m.active, m.kv.config.block_size);
    assert forall|x: u64| #[trigger] held(x) <= budget(x) by {
        assert(m.active.contains_key(x) <==> m.kv.sequences.contains_key(x));
        if m.active.contains_key(x) {
            assert(m.active_sound(x));
            assert(m.kv.sequence_consistent(x));
            let rx = m.active[x];
            let sx = m.kv.sequences[x];
            let longest = rx.prompt.len() + rx.max_new_tokens - 1;
            match rx.phase {
                RequestPhase::InFlight(_) => {
                    let batch = m.in_flight->0;
                    let i = choose|i: int|
                        0 <= i < batch.rows.len() && (#[trigger] batch.rows[i]).request_id.0 == x;
                    assert(m.row_sound(batch, i));
                    let v = m.kv.reservations[batch.rows[i].reservation_id.0];
                    lemma_pages_for_order(v.start_position + v.token_count, longest, block);
                },
                _ => {
                    lemma_pages_for_order(sx.committed_tokens as int, longest, block);
                },
            }
        }
    }
    // The sequence of `k`, grown by its next pass, still fits the budgets.
    let needed = pages_for(s.committed_tokens + count, block);
    let longest = r.prompt.len() + r.max_new_tokens - 1;
    lemma_pages_for_order(s.committed_tokens + count, longest, block);
    lemma_pages_for_order(s.committed_tokens as int, s.committed_tokens + count, block);
    let grown = |x: u64|
        if x == k {
            needed
        } else {
            held(x)
        };
    lemma_sum_change(held, grown, k, key_bound());
    lemma_sum_order(grown, budget, key_bound());
    law_pages_are_conserved(m.kv);
}

/// Where a first request has room, gathering finds a row or runs out of identifiers.
pub(crate) proof fn lemma_gather_finds(
    kv: KvModel,
    active: Map<u64, RequestModel>,
    ids: Seq<u64>,
    limit: int,
)
    requires
        ids.len() > 0,
        limit > 0,
        kv.can_append(RequestId(ids[0]), next_tokens(active[ids[0]]).len() as usize),
    ensures
        ({
            let g = gather(kv, active, ids, limit);
            g.rows.len() > 0 || (g.failed && g.kv.next_reservation == u64::MAX)
        }),
    decreases ids.len(),
{
    if ids.len() == 1 {
        assert(ids.drop_last() =~= Seq::empty());
        assert(gather(kv, active, ids.drop_last(), limit) == (Gathered {
            kv,
            rows: Seq::empty(),
            failed: false,
        }));
        assert(ids.last() == ids[0]);
    } else {
        assert(ids.drop_last()[0] == ids[0]);
        lemma_gather_finds(kv, active, ids.drop_last(), limit);
    }
}

/// Gathering fails only where identifiers are used up.
proof fn lemma_gather_failure(
    kv: KvModel,
    active: Map<u64, RequestModel>,
    ids: Seq<u64>,
    limit: int,
)
    ensures
        gather(kv, active, ids, limit).failed ==> gather(
            kv,
            active,
            ids,
            limit,
        ).kv.next_reservation == u64::MAX,
    decreases ids.len(),
{
    if ids.len() > 0 {
        lemma_gather_failure(kv, active, ids.drop_last(), limit);
    }
}

/// A batch of prompts never holds more useful tokens than the limit.
proof fn lemma_useful_bound(m: SchedulerModel, n: nat)
    requires
        n > 0,
    ensures
        0 <= m.useful_tokens(n) <= m.config.max_batch_tokens,
{
    let max = m.config.max_batch_tokens as int;
    let rows = m.bucket(n).len() as int;
    let most = max / n as int;
    vstd::arithmetic::div_mod::lemma_fundamental_div_mod(max, n as int);
    vstd::arithmetic::div_mod::lemma_mod_bound(max, n as int);
    vstd::arithmetic::div_mod::lemma_div_pos_is_pos(max, n as int);
    assert(0 <= most * n <= max) by (nonlinear_arith)
        requires
            max == (n as int) * most + max % (n as int),
            max % (n as int) >= 0,
            most >= 0,
            n > 0,
    ;
    if rows < most {
        assert(0 <= rows * n <= most * n) by (nonlinear_arith)
            requires
                0 <= rows <= most,
                n > 0,
        ;
    }
}

/// Where some prompt is ready, some length is best.
pub(crate) proof fn lemma_best_exists(m: SchedulerModel, n: nat)
    requires
        m.inv(),
        m.bucket(n).len() > 0,
    ensures
        exists|b: nat| m.best_length(b),
    decreases m.config.max_batch_tokens - m.useful_tokens(n), m.bucket(n)[0],
{
    lemma_bucket_batchable(m, n);
    assert(m.active.contains_key(m.bucket(n)[0]));
    assert(m.active_sound(m.bucket(n)[0]));
    assert(m.prefill_ready(m.bucket(n)[0], m.active[m.bucket(n)[0]]));
    lemma_useful_bound(m, n);
    if !m.best_length(n) {
        let o = choose|o: nat|
            (#[trigger] m.bucket(o)).len() > 0 && !(m.useful_tokens(o) < m.useful_tokens(n) || (
            m.useful_tokens(o) == m.useful_tokens(n) && m.bucket(n)[0] <= m.bucket(o)[0]));
        lemma_bucket_batchable(m, o);
        assert(m.active.contains_key(m.bucket(o)[0]));
        assert(m.active_sound(m.bucket(o)[0]));
        assert(m.prefill_ready(m.bucket(o)[0], m.active[m.bucket(o)[0]]));
        lemma_useful_bound(m, o);
        lemma_best_exists(m, o);
    }
}

/// With whole sequences reserved, a scheduler that has work and no batch in flight always finds a
/// batch, as long as identifiers are left.
pub proof fn law_reserved_requests_progress(m: SchedulerModel)
    requires
        m.inv(),
        m.reserves(),
        m.in_flight is None,
        m.next_batch < u64::MAX,
        m.pending.len() > 0 || m.active != Map::<u64, RequestModel>::empty(),
    ensures
        match m.schedule().result {
            Ok(Some(_)) => true,
            Ok(None) => false,
            Err(_) => m.schedule().after.kv.next_reservation == u64::MAX,
        },
{
    law_promoted_inv(m);
    let p = m.promoted();
    lemma_some_active(m);
    let k = choose|k: u64| p.active.contains_key(k);
    assert(p.active_sound(k));
    law_reserved_request_has_room(p, k);
    lemma_decode_batchable(p);
    lemma_gather_failure(
        p.kv,
        p.active,
        p.decode_candidates(),
        p.config.max_batch_tokens as int,
    );
    let b = choose|b: nat| p.best_length(b);
    lemma_gather_failure(
        p.kv,
        p.active,
        p.bucket(b),
        p.config.max_batch_tokens as int / b as int,
    );
    if p.active[k].phase is NeedsPrefill {
        let n = p.active[k].prompt.len();
        lemma_listing_lists(p.active, p.ready_of_length(n));
        assert(p.ready_of_length(n)(k, p.active[k]));
        assert(p.bucket(n).contains(k));
        assert(p.bucket(n).len() > 0);
        lemma_best_exists(p, n);
        assert(p.best_length(b));
        lemma_bucket_batchable(p, b);
        let first = p.bucket(b)[0];
        assert(p.prefill_ready(first, p.active[first]));
        assert(p.active.contains_key(first));
        assert(p.active_sound(first));
        assert(b > 0 && b <= p.config.max_batch_tokens);
        let max = p.config.max_batch_tokens as int;
        vstd::arithmetic::div_mod::lemma_div_is_ordered(b as int, max, b as int);
        vstd::arithmetic::div_mod::lemma_div_basics(b as int);
        assert(max / b as int >= 1);
        lemma_gather_finds(p.kv, p.active, p.bucket(b), max / b as int);
    } else {
        let q = |k: u64, r: RequestModel| r.phase is AwaitingDecode;
        lemma_listing_lists(p.active, q);
        let ids = p.decode_candidates();
        assert(q(k, p.active[k]));
        assert(ids.contains(k));
        assert(ids.len() > 0);
        let first = ids[0];
        assert(ids.contains(first));
        law_reserved_request_has_room(p, first);
        lemma_gather_finds(p.kv, p.active, ids, p.config.max_batch_tokens as int);
    }
}

/// After admission some request is admitted, where there is any.
proof fn lemma_some_active(m: SchedulerModel)
    requires
        m.inv(),
        m.reserves(),
        m.pending.len() > 0 || m.active != Map::<u64, RequestModel>::empty(),
    ensures
        exists|k: u64| m.promoted().active.contains_key(k),
{
    law_promoted_inv(m);
    if m.active != Map::<u64, RequestModel>::empty() {
        if forall|k: u64| !m.active.contains_key(k) {
            assert(m.active =~= Map::<u64, RequestModel>::empty());
        }
        let k = choose|k: u64| m.active.contains_key(k);
        assert(m.promoted().active.contains_key(k));
    } else {
        assert(m.pending_sound(0)) by {
            assert(m.pending[0] == m.pending[0]);
        }
        assert(m.active.dom() =~= Set::empty());
        crate::sums::lemma_sum_zero(
            budget_weight(m.active, m.kv.config.block_size),
            key_bound(),
        );
        assert(m.can_admit());
        lemma_promote_front_inv(m);
        law_promoted_inv(m.promote_front());
        let k = m.pending[0].id.0;
        assert(m.promote_front().active.contains_key(k));
        assert(m.promoted().active.contains_key(k));
    }
}

/// Settling rows keeps the random streams of the requests that go on.
proof fn lemma_settle_keeps_samplers(
    m: SchedulerModel,
    rows: Seq<RowModel>,
    tokens: Seq<i32>,
    k: u64,
)
    requires
        rows.len() == tokens.len(),
        m.settle_all(rows, tokens).active.contains_key(k),
        forall|i: int|
            #![trigger rows[i]]
            0 <= i < rows.len() ==> m.active.contains_key(rows[i].request_id.0),
        distinct_rows(rows),
    ensures
        m.active.contains_key(k),
        m.settle_all(rows, tokens).active[k].sampler == m.active[k].sampler,
    decreases rows.len(),
{
    if rows.len() > 0 {
        let fewer = rows.drop_last();
        let before = m.settle_all(fewer, tokens.drop_last());
        let n = rows.len() - 1;
        assert forall|i: int|
            #![trigger fewer[i]]
            0 <= i < fewer.len() implies m.active.contains_key(fewer[i].request_id.0) by {
            assert(fewer[i] == rows[i]);
        }
        assert forall|i: int, j: int| 0 <= i < j < fewer.len() implies (
        #[trigger] fewer[i]).request_id.0 != (#[trigger] fewer[j]).request_id.0 by {
            assert(fewer[i] == rows[i]);
            assert(fewer[j] == rows[j]);
        }
        let last = rows[n].request_id.0;
        lemma_settle_keeps_others(m, fewer, tokens.drop_last(), last);
        assert(before.active.contains_key(last)) by {
            assert(m.active.contains_key(last));
            assert(!has_row(fewer, last)) by {
                if has_row(fewer, last) {
                    let i = choose|i: int|
                        0 <= i < fewer.len() && (#[trigger] fewer[i]).request_id.0 == last;
                    assert(rows[i].request_id.0 != rows[n].request_id.0);
                }
            }
        }
        assert(before.active.contains_key(k));
        lemma_settle_keeps_samplers(m, fewer, tokens.drop_last(), k);
    }
}

/// Settling rows leaves other requests alone.
pub(crate) proof fn lemma_settle_keeps_others(
    m: SchedulerModel,
    rows: Seq<RowModel>,
    tokens: Seq<i32>,
    k: u64,
)
    requires
        rows.len() == tokens.len(),
    ensures
        !has_row(rows, k) ==> m.settle_all(rows, tokens).active.contains_key(k)
            == m.active.contains_key(k) && m.settle_all(rows, tokens).active[k] == m.active[k],
    decreases rows.len(),
{
    if rows.len() > 0 && !has_row(rows, k) {
        let fewer = rows.drop_last();
        assert(!has_row(fewer, k)) by {
            if has_row(fewer, k) {
                let i = choose|i: int|
                    0 <= i < fewer.len() && (#[trigger] fewer[i]).request_id.0 == k;
                assert(rows[i].request_id.0 == k);
            }
        }
        assert(rows[rows.len() - 1].request_id.0 != k);
        lemma_settle_keeps_others(m, fewer, tokens.drop_last(), k);
    }
}

/// One of the first `n` rows belongs to request `k`, which is sampled.
spec fn sampled_row(m: SchedulerModel, rows: Seq<RowModel>, n: int, k: u64) -> bool {
    has_row(rows.take(n), k) && m.active[k].sampler is Some
}

/// Putting advanced samplers in place.
proof fn lemma_samplers_in_place(
    m: SchedulerModel,
    c: SchedulerModel,
    rows: Seq<RowModel>,
    n: int,
    k: u64,
)
    requires
        0 <= n <= rows.len(),
        c.active.contains_key(k),
    ensures
        ({
            let w = with_samplers(c, advanced_samplers(m, rows, n));
            &&& w.active.contains_key(k)
            &&& w.active[k].sampler == if sampled_row(m, rows, n, k) {
                let before = m.active[k].sampler->0;
                Some(SamplerModel { config: before.config, state: after_draw(before.state) })
            } else {
                c.active[k].sampler
            }
        }),
    decreases n,
{
    if n > 0 {
        lemma_samplers_in_place(m, c, rows, n - 1, k);
        let id = rows[n - 1].request_id;
        let shorter = rows.take(n - 1);
        let longer = rows.take(n);
        assert(has_row(longer, k) == (has_row(shorter, k) || id.0 == k)) by {
            if has_row(longer, k) {
                let i = choose|i: int|
                    0 <= i < longer.len() && (#[trigger] longer[i]).request_id.0 == k;
                if i < n - 1 {
                    assert(shorter[i].request_id.0 == k);
                }
            }
            if has_row(shorter, k) {
                let i = choose|i: int|
                    0 <= i < shorter.len() && (#[trigger] shorter[i]).request_id.0 == k;
                assert(longer[i].request_id.0 == k);
            }
            if id.0 == k {
                assert(longer[n - 1].request_id.0 == k);
            }
        }
        match m.active[id.0].sampler {
            Some(sampler) => {
                let states = advanced_samplers(m, rows, n);
                let before = advanced_samplers(m, rows, n - 1);
                assert(states.drop_last() =~= before);
            },
            None => {},
        }
    }
}

/// Completing a batch with the tokens selected for it advances the random stream of each sampled
/// request in it by exactly one draw and leaves every other stream where it was, whatever else is
/// in the batch.
pub proof fn law_completion_draws_once(m: SchedulerModel, batch_id: u64, tokens: Seq<i32>, k: u64)
    requires
        m.inv(),
        m.complete_error(batch_id, tokens) is None,
    ensures
        ({
            let rows = (m.in_flight->0).rows;
            let done = with_samplers(
                m.complete_state(tokens),
                advanced_samplers(m, rows, rows.len() as int),
            );
            m.complete_state(tokens).active.contains_key(k) ==> {
                &&& m.active.contains_key(k)
                &&& done.active.contains_key(k)
                &&& done.active[k].sampler == if has_row(rows, k) {
                    match m.active[k].sampler {
                        Some(sampler) => Some(
                            SamplerModel {
                                config: sampler.config,
                                state: after_draw(sampler.state),
                            },
                        ),
                        None => None,
                    }
                } else {
                    m.active[k].sampler
                }
            }
        }),
{
    let batch = m.in_flight->0;
    let rows = batch.rows;
    let done = m.complete_state(tokens);
    if done.active.contains_key(k) {
        let start = SchedulerModel {
            kv: m.kv.commit_all(reservations_of(rows)),
            in_flight: None,
            ..m
        };
        assert forall|i: int|
            #![trigger rows[i]]
            0 <= i < rows.len() implies start.active.contains_key(rows[i].request_id.0) by {
            assert(m.row_sound(batch, i));
        }
        lemma_settle_keeps_samplers(start, rows, tokens, k);
        lemma_samplers_in_place(m, done, rows, rows.len() as int, k);
        assert(rows.take(rows.len() as int) =~= rows);
    }
}

/// Rolling a batch back uses up no random number.
pub proof fn law_rollback_draws_nothing(m: SchedulerModel, batch_id: u64, k: u64)
    requires
        m.inv(),
        m.batch_error(batch_id) is None,
        m.active.contains_key(k),
    ensures
        m.fail_state().active.contains_key(k),
        m.fail_state().active[k].sampler == m.active[k].sampler,
        m.fail_state().active[k].generated == m.active[k].generated,
{
    let batch = m.in_flight->0;
    let rows = batch.rows;
    assert forall|i: int|
        #![trigger rows[i]]
        0 <= i < rows.len() implies m.active.contains_key(rows[i].request_id.0) by {
        assert(m.row_sound(batch, i));
    }
    lemma_restored(m.active, batch.kind, rows);
    if has_row(rows, k) {
        let i = choose|i: int| 0 <= i < rows.len() && (#[trigger] rows[i]).request_id.0 == k;
        assert(rows[i].request_id.0 == k);
    } else {
        assert(restored(m.active, batch.kind, rows)[k] == m.active[k]);
    }
}

} // verus!
