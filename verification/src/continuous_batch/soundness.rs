//! What every reachable scheduler state satisfies, and that each operation keeps it.

use crate::continuous_batch::batch::{
    BatchModel, ContinuousBatchConfig, ContinuousBatchOptions, RowModel, ScheduledBatchKind,
};
use crate::continuous_batch::model::{
    budget_weight, gather, has_row, next_tokens, reservations_backwards, reservations_of, restored,
    row_of, Gathered, RequestModel, RequestPhase, SchedulerModel,
};
use crate::generation::sampling::SamplerModel;
use crate::paged_kv::{
    lemma_pages_for_order, KvModel, KvPageId, KvReservationId, PagedKvCacheConfig, RequestId,
    SequenceModel,
};
use crate::paged_kv_laws::{
    law_begin_consistent, law_begin_iff_can_append, law_cancel_all_consistent,
    law_cancel_undoes_begin, law_commit_all_consistent, law_create_consistent,
    law_initial_consistent, law_remove_consistent, lemma_group_rest,
};
use crate::sums::{key_bound, lemma_sum_change, lemma_sum_same, lemma_sum_zero};
use vstd::prelude::*;

verus! {

impl SchedulerModel {
    /// A request that was accepted: it has a prompt, asks for tokens and fits the cache.
    pub open spec fn request_sound(self, prompt: Seq<i32>, max_new_tokens: usize) -> bool {
        prompt.len() > 0 && max_new_tokens > 0 && prompt.len() + max_new_tokens
            <= self.kv.config.max_sequence_length
    }

    /// An admitted request and its sequence agree on how far it has come.
    pub open spec fn active_sound(self, k: u64) -> bool {
        let r = self.active[k];
        let s = self.kv.sequences[k];
        &&& self.request_sound(r.prompt, r.max_new_tokens)
        &&& r.generated.len() < r.max_new_tokens
        &&& k < self.next_request
        &&& match r.phase {
            RequestPhase::NeedsPrefill => s.committed_tokens == 0 && s.pending is None
                && r.generated.len() == 0 && r.prompt.len() <= self.config.max_batch_tokens,
            RequestPhase::AwaitingDecode(token) => s.pending is None && r.generated.len() > 0
                && r.generated.last() == token && s.committed_tokens == r.prompt.len()
                + r.generated.len() - 1,
            RequestPhase::InFlight(batch_id) => self.in_flight is Some && (self.in_flight->0).id
                == batch_id && has_row((self.in_flight->0).rows, k),
        }
    }

    /// A row of the batch in flight owns its request and its reservation.
    pub open spec fn row_sound(self, batch: BatchModel, i: int) -> bool {
        let row = batch.rows[i];
        let k = row.request_id.0;
        let r = self.active[k];
        let s = self.kv.sequences[k];
        &&& self.active.contains_key(k)
        &&& r.phase == RequestPhase::InFlight(batch.id)
        &&& s.pending == Some(row.reservation_id)
        &&& row.start_position == s.committed_tokens
        &&& self.kv.reservations[row.reservation_id.0].token_count == row.token_ids.len()
        &&& match batch.kind {
            ScheduledBatchKind::Prefill => row.token_ids == r.prompt && r.generated.len() == 0
                && s.committed_tokens == 0 && r.prompt.len() <= self.config.max_batch_tokens,
            ScheduledBatchKind::Decode => row.token_ids.len() == 1 && r.generated.len() > 0
                && row.token_ids[0] == r.generated.last() && s.committed_tokens == r.prompt.len()
                + r.generated.len() - 1,
        }
    }

    /// The batch in flight is in order.
    pub open spec fn batch_sound(self, batch: BatchModel) -> bool {
        &&& batch.rows.len() > 0
        &&& batch.id < self.next_batch
        &&& forall|i: int|
            #![trigger batch.rows[i]]
            0 <= i < batch.rows.len() ==> self.row_sound(batch, i)
        &&& distinct_rows(batch.rows)
    }

    /// A queued request.
    pub open spec fn pending_sound(self, i: int) -> bool {
        let p = self.pending[i];
        &&& self.request_sound(p.prompt, p.max_new_tokens)
        &&& p.id.0 < self.next_request
        &&& !self.active.contains_key(p.id.0)
        &&& p.prompt.len() <= self.config.max_batch_tokens
        &&& self.required_pages(p.prompt.len() as int, p.max_new_tokens as int)
            <= self.kv.config.num_pages
    }

    /// Queued requests stand in order of arrival.
    pub open spec fn queue_ordered(self) -> bool {
        forall|i: int, j: int|
            0 <= i < j < self.pending.len() ==> (#[trigger] self.pending[i]).id.0 < (
            #[trigger] self.pending[j]).id.0
    }

    /// What every reachable state satisfies.
    pub open spec fn inv(self) -> bool {
        &&& self.config.valid()
        &&& self.options.valid()
        &&& self.kv.consistent()
        &&& self.active.dom().finite()
        &&& forall|k: u64| #[trigger]
            self.active.contains_key(k) <==> self.kv.sequences.contains_key(k)
        &&& forall|k: u64| #[trigger] self.active.contains_key(k) ==> self.active_sound(k)
        &&& forall|i: int|
            #![trigger self.pending[i]]
            0 <= i < self.pending.len() ==> self.pending_sound(i)
        &&& self.queue_ordered()
        &&& self.in_flight matches Some(batch) ==> self.batch_sound(batch)
        &&& self.reserves() ==> self.total_budget() <= self.kv.config.num_pages
    }
}

/// No request has two rows.
pub open spec fn distinct_rows(rows: Seq<RowModel>) -> bool {
    forall|i: int, j: int|
        0 <= i < j < rows.len() ==> (#[trigger] rows[i]).request_id.0 != (
        #[trigger] rows[j]).request_id.0
}

/// A new scheduler satisfies the invariant.
pub proof fn law_initial_inv(
    config: ContinuousBatchConfig,
    kv_config: PagedKvCacheConfig,
    options: ContinuousBatchOptions,
)
    requires
        config.valid(),
        kv_config.valid(),
        options.valid(),
    ensures
        SchedulerModel::initial(config, kv_config, options).inv(),
{
    let m = SchedulerModel::initial(config, kv_config, options);
    law_initial_consistent(kv_config);
    lemma_sum_zero(budget_weight(m.active, m.kv.config.block_size), key_bound());
}

/// Accepting a request keeps the invariant.
pub proof fn law_submit_inv(
    m: SchedulerModel,
    prompt: Seq<i32>,
    max_new_tokens: usize,
    eos: Seq<i32>,
    sampler: Option<SamplerModel>,
)
    requires
        m.inv(),
        m.submit_error(prompt, max_new_tokens, eos) is None,
    ensures
        m.submit_state(prompt, max_new_tokens, eos, sampler).inv(),
{
    let after = m.submit_state(prompt, max_new_tokens, eos, sampler);
    assert forall|k: u64| #[trigger] after.active.contains_key(k) implies after.active_sound(k) by {
        assert(m.active_sound(k));
    }
    if max_new_tokens > 0 {
        assert forall|i: int|
            #![trigger after.pending[i]]
            0 <= i < after.pending.len() implies after.pending_sound(i) by {
            if i < m.pending.len() {
                assert(after.pending[i] == m.pending[i]);
                assert(m.pending_sound(i));
            } else {
                if m.active.contains_key(m.next_request) {
                    assert(m.active_sound(m.next_request));
                }
            }
        }
        assert forall|i: int, j: int| 0 <= i < j < after.pending.len() implies (
        #[trigger] after.pending[i]).id.0 < (#[trigger] after.pending[j]).id.0 by {
            assert(after.pending[i] == m.pending[i]);
            assert(m.pending_sound(i));
            if j < m.pending.len() {
                assert(after.pending[j] == m.pending[j]);
            }
        }
    } else {
        assert forall|i: int|
            #![trigger after.pending[i]]
            0 <= i < after.pending.len() implies after.pending_sound(i) by {
            assert(m.pending_sound(i));
        }
    }
    if let Some(batch) = after.in_flight {
        lemma_batch_same(m, after, batch);
    }
}

/// A batch stays in order where nothing that it rests on changes.
proof fn lemma_batch_same(m: SchedulerModel, after: SchedulerModel, batch: BatchModel)
    requires
        m.batch_sound(batch),
        after.config == m.config,
        after.next_batch >= m.next_batch,
        forall|k: u64| #[trigger]
            has_row(batch.rows, k) ==> after.active.contains_key(k) == m.active.contains_key(k)
                && after.active[k] == m.active[k] && after.kv.sequences[k] == m.kv.sequences[k],
        forall|i: int|
            0 <= i < batch.rows.len() ==> after.kv.reservations[(
            #[trigger] batch.rows[i]).reservation_id.0].token_count
                == m.kv.reservations[batch.rows[i].reservation_id.0].token_count,
    ensures
        after.batch_sound(batch),
{
    assert forall|i: int|
        #![trigger batch.rows[i]]
        0 <= i < batch.rows.len() implies after.row_sound(batch, i) by {
        assert(m.row_sound(batch, i));
        assert(has_row(batch.rows, batch.rows[i].request_id.0));
    }
}

/// Admitting the request at the front keeps the invariant.
pub proof fn lemma_promote_front_inv(m: SchedulerModel)
    requires
        m.inv(),
        m.can_admit(),
    ensures
        m.promote_front().inv(),
{
    let front = m.pending[0];
    let after = m.promote_front();
    assert(m.pending_sound(0));
    assert(!m.kv.sequences.contains_key(front.id.0));
    law_create_consistent(m.kv, front.id);
    assert(after.kv =~= m.kv.create(front.id)->Ok_0);
    assert forall|k: u64| #[trigger] after.active.contains_key(k) implies after.active_sound(k) by {
        if k != front.id.0 {
            assert(m.active_sound(k));
        }
    }
    assert forall|i: int|
        #![trigger after.pending[i]]
        0 <= i < after.pending.len() implies after.pending_sound(i) by {
        assert(after.pending[i] == m.pending[i + 1]);
        assert(m.pending_sound(i + 1));
        assert(m.pending[0].id.0 < m.pending[i + 1].id.0);
    }
    assert forall|i: int, j: int| 0 <= i < j < after.pending.len() implies (
    #[trigger] after.pending[i]).id.0 < (#[trigger] after.pending[j]).id.0 by {
        assert(after.pending[i] == m.pending[i + 1]);
        assert(after.pending[j] == m.pending[j + 1]);
    }
    lemma_sum_change(
        budget_weight(m.active, m.kv.config.block_size),
        budget_weight(after.active, m.kv.config.block_size),
        front.id.0,
        key_bound(),
    );
    if let Some(batch) = after.in_flight {
        assert forall|k: u64| #[trigger] has_row(batch.rows, k) implies after.active.contains_key(k)
            == m.active.contains_key(k) && after.active[k] == m.active[k] && after.kv.sequences[k]
            == m.kv.sequences[k] by {
            let i = choose|i: int|
                0 <= i < batch.rows.len() && (#[trigger] batch.rows[i]).request_id.0 == k;
            assert(m.row_sound(batch, i));
            assert(k != front.id.0);
        }
        lemma_batch_same(m, after, batch);
    }
}

/// Admitting requests keeps the invariant and touches only the queue, the admitted requests and
/// their sequences.
pub proof fn law_promoted_inv(m: SchedulerModel)
    requires
        m.inv(),
    ensures
        m.promoted().inv(),
        m.promoted().in_flight == m.in_flight,
        m.promoted().next_batch == m.next_batch,
        m.promoted().next_request == m.next_request,
        m.promoted().prefer_prefill == m.prefer_prefill,
        m.promoted().config == m.config,
        m.promoted().options == m.options,
        m.promoted().finished == m.finished,
        m.promoted().kv.config == m.kv.config,
        m.promoted().kv.free == m.kv.free,
        m.promoted().kv.next_reservation == m.kv.next_reservation,
        forall|k: u64| #[trigger]
            m.active.contains_key(k) ==> m.promoted().active.contains_key(k)
                && m.promoted().active[k] == m.active[k],
    decreases m.pending.len(),
{
    if m.can_admit() {
        lemma_promote_front_inv(m);
        law_promoted_inv(m.promote_front());
        assert(m.pending_sound(0));
        assert forall|k: u64| #[trigger] m.active.contains_key(k) implies m.promoted().active.contains_key(
        k) && m.promoted().active[k] == m.active[k] by {
            assert(m.promote_front().active.contains_key(k));
        }
    }
}

/// The reservation of a pending sequence can be resolved.
pub proof fn lemma_pending_resolves(kv: KvModel, k: u64, rid: KvReservationId)
    requires
        kv.consistent(),
        kv.sequences.contains_key(k),
        kv.sequences[k].pending == Some(rid),
    ensures
        kv.reservation_error(rid) is None,
        kv.reservations[rid.0].request_id.0 == k,
{
    assert(kv.sequence_consistent(k));
    let r = kv.reservations[rid.0];
    lemma_pages_for_order(
        r.start_position as int,
        r.start_position + r.token_count,
        kv.config.block_size as int,
    );
}

/// The reservations of distinct pending sequences can be resolved as a group.
proof fn lemma_group_resolves(kv: KvModel, rids: Seq<KvReservationId>, owners: Seq<u64>)
    requires
        kv.consistent(),
        owners.len() == rids.len(),
        forall|i: int|
            0 <= i < rids.len() ==> kv.sequences.contains_key(#[trigger] owners[i])
                && kv.sequences[owners[i]].pending == Some(rids[i]),
        owners.no_duplicates(),
    ensures
        kv.group_error(rids) is None,
    decreases rids.len(),
{
    if rids.len() > 0 {
        let n = rids.len() - 1;
        assert forall|i: int| 0 <= i < rids.drop_last().len() implies kv.sequences.contains_key(
            #[trigger] owners.drop_last()[i],
        ) && kv.sequences[owners.drop_last()[i]].pending == Some(rids.drop_last()[i]) by {
            assert(owners.drop_last()[i] == owners[i]);
        }
        lemma_group_resolves(kv, rids.drop_last(), owners.drop_last());
        assert(kv.sequences.contains_key(owners[n]));
        lemma_pending_resolves(kv, owners[n], rids[n]);
        if rids.drop_last().contains(rids.last()) {
            let i = choose|i: int|
                0 <= i < rids.drop_last().len() && rids.drop_last()[i] == rids.last();
            assert(kv.sequences.contains_key(owners[i]));
            lemma_pending_resolves(kv, owners[i], rids[i]);
            assert(owners[i] == owners[n]);
        }
    }
}

/// What committing a group does to each sequence.
proof fn lemma_commit_effect(kv: KvModel, rids: Seq<KvReservationId>, owners: Seq<u64>)
    requires
        kv.consistent(),
        owners.len() == rids.len(),
        forall|i: int|
            0 <= i < rids.len() ==> kv.sequences.contains_key(#[trigger] owners[i])
                && kv.sequences[owners[i]].pending == Some(rids[i]),
        owners.no_duplicates(),
    ensures
        kv.group_error(rids) is None,
        kv.commit_all(rids).consistent(),
        kv.commit_all(rids).config == kv.config,
        kv.commit_all(rids).free == kv.free,
        kv.commit_all(rids).next_reservation == kv.next_reservation,
        forall|k: u64| #[trigger]
            kv.commit_all(rids).sequences.contains_key(k) <==> kv.sequences.contains_key(k),
        forall|k: u64|
            !owners.contains(k) ==> #[trigger] kv.commit_all(rids).sequences[k] == kv.sequences[k],
        forall|i: int|
            0 <= i < rids.len() ==> kv.commit_all(rids).sequences[#[trigger] owners[i]]
                == (SequenceModel {
                committed_tokens: kv.committed_length(rids[i]),
                pages: kv.sequences[owners[i]].pages,
                pending: None,
            }),
    decreases rids.len(),
{
    lemma_group_resolves(kv, rids, owners);
    law_commit_all_consistent(kv, rids);
    if rids.len() > 0 {
        let n = rids.len() - 1;
        let fewer = rids.drop_last();
        let others = owners.drop_last();
        assert forall|i: int| 0 <= i < fewer.len() implies kv.sequences.contains_key(
            #[trigger] others[i],
        ) && kv.sequences[others[i]].pending == Some(fewer[i]) by {
            assert(others[i] == owners[i]);
        }
        lemma_commit_effect(kv, fewer, others);
        assert(kv.sequences.contains_key(owners[n]));
        lemma_pending_resolves(kv, owners[n], rids[n]);
        lemma_group_rest(kv, fewer, rids.last());
        let middle = kv.commit_all(fewer);
        let done = kv.commit_all(rids);
        assert(middle.reservations[rids[n].0] == kv.reservations[rids[n].0]);
        assert(middle.sequences[owners[n]] == kv.sequences[owners[n]]);
        assert(!others.contains(owners[n])) by {
            if others.contains(owners[n]) {
                let i = choose|i: int| 0 <= i < others.len() && others[i] == owners[n];
                assert(owners[i] == owners[n]);
            }
        }
        assert forall|k: u64| !owners.contains(k) implies #[trigger] done.sequences[k]
            == kv.sequences[k] by {
            assert(owners[n] != k) by {
                assert(owners.contains(owners[n]));
            }
            assert(!others.contains(k)) by {
                if others.contains(k) {
                    let i = choose|i: int| 0 <= i < others.len() && others[i] == k;
                    assert(owners[i] == k);
                }
            }
            assert(middle.sequences[k] == kv.sequences[k]);
        }
        assert forall|i: int| 0 <= i < rids.len() implies done.sequences[#[trigger] owners[i]] == (
        SequenceModel {
            committed_tokens: kv.committed_length(rids[i]),
            pages: kv.sequences[owners[i]].pages,
            pending: None,
        }) by {
            if i < n {
                assert(others[i] == owners[i]);
                assert(owners[i] != owners[n]);
            }
        }
    }
}

/// What withdrawing a group does to each sequence.
proof fn lemma_cancel_effect(kv: KvModel, rids: Seq<KvReservationId>, owners: Seq<u64>)
    requires
        kv.consistent(),
        owners.len() == rids.len(),
        forall|i: int|
            0 <= i < rids.len() ==> kv.sequences.contains_key(#[trigger] owners[i])
                && kv.sequences[owners[i]].pending == Some(rids[i]),
        owners.no_duplicates(),
    ensures
        kv.group_error(rids) is None,
        kv.cancel_all(rids).consistent(),
        kv.cancel_all(rids).config == kv.config,
        kv.cancel_all(rids).next_reservation == kv.next_reservation,
        forall|k: u64| #[trigger]
            kv.cancel_all(rids).sequences.contains_key(k) <==> kv.sequences.contains_key(k),
        forall|k: u64|
            !owners.contains(k) ==> #[trigger] kv.cancel_all(rids).sequences[k] == kv.sequences[k],
        forall|i: int|
            0 <= i < rids.len() ==> {
                let s = kv.cancel_all(rids).sequences[#[trigger] owners[i]];
                s.committed_tokens == kv.sequences[owners[i]].committed_tokens && s.pending is None
            },
    decreases rids.len(),
{
    lemma_group_resolves(kv, rids, owners);
    law_cancel_all_consistent(kv, rids);
    if rids.len() > 0 {
        let n = rids.len() - 1;
        let fewer = rids.drop_last();
        let others = owners.drop_last();
        assert forall|i: int| 0 <= i < fewer.len() implies kv.sequences.contains_key(
            #[trigger] others[i],
        ) && kv.sequences[others[i]].pending == Some(fewer[i]) by {
            assert(others[i] == owners[i]);
        }
        lemma_cancel_effect(kv, fewer, others);
        assert(kv.sequences.contains_key(owners[n]));
        lemma_pending_resolves(kv, owners[n], rids[n]);
        lemma_group_rest(kv, fewer, rids.last());
        let middle = kv.cancel_all(fewer);
        let done = kv.cancel_all(rids);
        assert(middle.reservations[rids[n].0] == kv.reservations[rids[n].0]);
        assert(middle.sequences[owners[n]] == kv.sequences[owners[n]]);
        assert forall|k: u64| !owners.contains(k) implies #[trigger] done.sequences[k]
            == kv.sequences[k] by {
            assert(owners[n] != k) by {
                assert(owners.contains(owners[n]));
            }
            assert(!others.contains(k)) by {
                if others.contains(k) {
                    let i = choose|i: int| 0 <= i < others.len() && others[i] == k;
                    assert(owners[i] == k);
                }
            }
            assert(middle.sequences[k] == kv.sequences[k]);
        }
        assert forall|i: int| 0 <= i < rids.len() implies {
            let s = done.sequences[#[trigger] owners[i]];
            s.committed_tokens == kv.sequences[owners[i]].committed_tokens && s.pending is None
        } by {
            if i < n {
                assert(others[i] == owners[i]);
                assert(owners[i] != owners[n]);
            }
        }
    }
}

/// The rows that were gathered are in order, and nothing else changed.
pub open spec fn gathered_sound(
    kv: KvModel,
    active: Map<u64, RequestModel>,
    ids: Seq<u64>,
    g: Gathered,
) -> bool {
    &&& g.kv.consistent()
    &&& g.kv.config == kv.config
    &&& g.kv.next_reservation == kv.next_reservation + g.rows.len()
    &&& forall|k: u64| #[trigger] g.kv.sequences.contains_key(k) <==> kv.sequences.contains_key(k)
    &&& forall|k: u64| !has_row(g.rows, k) ==> #[trigger] g.kv.sequences[k] == kv.sequences[k]
    &&& forall|k: u64| #[trigger] has_row(g.rows, k) ==> ids.contains(k)
    &&& forall|i: int|
        #![trigger g.rows[i]]
        0 <= i < g.rows.len() ==> row_gathered(kv, active, g, i)
    &&& distinct_rows(g.rows)
}

/// A gathered row holds its request's next tokens and its reservation.
pub open spec fn row_gathered(
    kv: KvModel,
    active: Map<u64, RequestModel>,
    g: Gathered,
    i: int,
) -> bool {
    let row = g.rows[i];
    let k = row.request_id.0;
    &&& kv.sequences.contains_key(k)
    &&& kv.sequences[k].pending is None
    &&& row.token_ids == next_tokens(active[k])
    &&& row.start_position == kv.sequences[k].committed_tokens
    &&& row.context_length == row.start_position + row.token_ids.len()
    &&& g.kv.sequences[k].committed_tokens == kv.sequences[k].committed_tokens
    &&& g.kv.sequences[k].pages == row.block_table
    &&& g.kv.sequences[k].pending == Some(row.reservation_id)
    &&& g.kv.reservations[row.reservation_id.0].token_count == row.token_ids.len()
}

/// Gathering rows for distinct requests.
pub proof fn lemma_gather(kv: KvModel, active: Map<u64, RequestModel>, ids: Seq<u64>, limit: int)
    requires
        kv.consistent(),
        ids.no_duplicates(),
        forall|i: int|
            0 <= i < ids.len() ==> kv.sequences.contains_key(#[trigger] ids[i]) && next_tokens(
                active[ids[i]],
            ).len() <= usize::MAX,
    ensures
        gathered_sound(kv, active, ids, gather(kv, active, ids, limit)),
        limit >= 0 ==> gather(kv, active, ids, limit).rows.len() <= limit,
    decreases ids.len(),
{
    let g = gather(kv, active, ids, limit);
    if ids.len() > 0 {
        let fewer = ids.drop_last();
        let before = gather(kv, active, fewer, limit);
        assert forall|i: int| 0 <= i < fewer.len() implies kv.sequences.contains_key(
            #[trigger] fewer[i],
        ) && next_tokens(active[fewer[i]]).len() <= usize::MAX by {
            assert(fewer[i] == ids[i]);
        }
        lemma_gather(kv, active, fewer, limit);
        let k = ids.last();
        assert(ids[ids.len() - 1] == k);
        assert(!fewer.contains(k)) by {
            if fewer.contains(k) {
                let i = choose|i: int| 0 <= i < fewer.len() && fewer[i] == k;
                assert(ids[i] == k);
            }
        }
        assert forall|x: u64| #[trigger] fewer.contains(x) implies ids.contains(x) by {
            let i = choose|i: int| 0 <= i < fewer.len() && fewer[i] == x;
            assert(ids[i] == x);
        }
        assert(!has_row(before.rows, k));
        let id = RequestId(k);
        let tokens = next_tokens(active[k]);
        let count = tokens.len() as usize;
        if before.failed || before.rows.len() >= limit || !before.kv.can_append(id, count)
            || before.kv.next_reservation == u64::MAX {
            assert(g.rows == before.rows);
            assert(g.kv == before.kv);
            assert forall|i: int|
                #![trigger g.rows[i]]
                0 <= i < g.rows.len() implies row_gathered(kv, active, g, i) by {
                assert(before.rows[i] == g.rows[i]);
                assert(row_gathered(kv, active, before, i));
            }
        } else {
            law_begin_iff_can_append(before.kv, id, count);
            law_begin_consistent(before.kv, id, count);
            let value = before.kv.begin_value(id, count);
            let row = row_of(value, tokens);
            assert(g.rows == before.rows.push(row));
            assert(before.kv.sequences[k] == kv.sequences[k]);
            assert forall|x: u64| #[trigger] has_row(g.rows, x) implies ids.contains(x) by {
                let i = choose|i: int|
                    0 <= i < g.rows.len() && (#[trigger] g.rows[i]).request_id.0 == x;
                if i < before.rows.len() {
                    assert(before.rows[i] == g.rows[i]);
                    assert(has_row(before.rows, x));
                }
            }
            assert forall|x: u64| !has_row(g.rows, x) implies #[trigger] g.kv.sequences[x]
                == kv.sequences[x] by {
                assert(g.rows[g.rows.len() - 1].request_id.0 == k);
                if has_row(before.rows, x) {
                    let i = choose|i: int|
                        0 <= i < before.rows.len() && (#[trigger] before.rows[i]).request_id.0 == x;
                    assert(g.rows[i] == before.rows[i]);
                }
                assert(before.kv.sequences[x] == kv.sequences[x]);
            }
            assert forall|i: int|
                #![trigger g.rows[i]]
                0 <= i < g.rows.len() implies row_gathered(kv, active, g, i) by {
                if i < before.rows.len() {
                    assert(before.rows[i] == g.rows[i]);
                    assert(row_gathered(kv, active, before, i));
                    let o = before.rows[i].request_id.0;
                    assert(has_row(before.rows, o));
                    assert(o != k);
                    lemma_pending_resolves(before.kv, o, before.rows[i].reservation_id);
                    assert(before.kv.reservations.contains_key(before.rows[i].reservation_id.0));
                }
            }
            assert forall|i: int, j: int| 0 <= i < j < g.rows.len() implies (
            #[trigger] g.rows[i]).request_id.0 != (#[trigger] g.rows[j]).request_id.0 by {
                assert(g.rows[i] == before.rows[i]);
                assert(has_row(before.rows, before.rows[i].request_id.0));
                if j < before.rows.len() {
                    assert(g.rows[j] == before.rows[j]);
                }
            }
        }
    }
}

/// The requests of some rows, last row first.
spec fn owners_backwards(rows: Seq<RowModel>) -> Seq<u64> {
    Seq::new(rows.len(), |i: int| rows[rows.len() - 1 - i].request_id.0)
}

/// The requests of some rows.
spec fn owners_of(rows: Seq<RowModel>) -> Seq<u64> {
    Seq::new(rows.len(), |i: int| rows[i].request_id.0)
}

/// Withdrawing one reservation and then others is withdrawing all of them.
proof fn lemma_cancel_first(kv: KvModel, first: KvReservationId, rest: Seq<KvReservationId>)
    ensures
        kv.cancel_all(seq![first] + rest) == kv.cancel_state(first).cancel_all(rest),
    decreases rest.len(),
{
    let all = seq![first] + rest;
    if rest.len() == 0 {
        assert(all.drop_last() =~= Seq::empty());
        assert(all.last() == first);
        assert(kv.cancel_all(all.drop_last()) == kv);
        assert(kv.cancel_state(first).cancel_all(rest) == kv.cancel_state(first));
    } else {
        assert(all.drop_last() =~= seq![first] + rest.drop_last());
        assert(all.last() == rest.last());
        lemma_cancel_first(kv, first, rest.drop_last());
    }
}

/// Withdrawing reservations does not look at the next identifier.
proof fn lemma_cancel_keeps_counter(kv: KvModel, next: u64, rids: Seq<KvReservationId>)
    ensures
        (KvModel { next_reservation: next, ..kv }).cancel_all(rids) == (KvModel {
            next_reservation: next,
            ..kv.cancel_all(rids)
        }),
    decreases rids.len(),
{
    if rids.len() > 0 {
        lemma_cancel_keeps_counter(kv, next, rids.drop_last());
    }
}

/// Withdrawing the rows that were just gathered, last row first, restores the cache but for the
/// identifiers used up.
pub proof fn law_rollback_undoes_gather(
    kv: KvModel,
    active: Map<u64, RequestModel>,
    ids: Seq<u64>,
    limit: int,
)
    requires
        kv.consistent(),
        ids.no_duplicates(),
        forall|i: int|
            0 <= i < ids.len() ==> kv.sequences.contains_key(#[trigger] ids[i]) && next_tokens(
                active[ids[i]],
            ).len() <= usize::MAX,
    ensures
        ({
            let g = gather(kv, active, ids, limit);
            &&& g.kv.group_error(reservations_backwards(g.rows)) is None
            &&& g.kv.cancel_all(reservations_backwards(g.rows)) == (KvModel {
                next_reservation: g.kv.next_reservation,
                ..kv
            })
        }),
    decreases ids.len(),
{
    let g = gather(kv, active, ids, limit);
    lemma_gather(kv, active, ids, limit);
    lemma_rows_resolve(g.kv, g.rows);
    if ids.len() > 0 {
        let fewer = ids.drop_last();
        assert forall|i: int| 0 <= i < fewer.len() implies kv.sequences.contains_key(
            #[trigger] fewer[i],
        ) && next_tokens(active[fewer[i]]).len() <= usize::MAX by {
            assert(fewer[i] == ids[i]);
        }
        law_rollback_undoes_gather(kv, active, fewer, limit);
        lemma_gather(kv, active, fewer, limit);
        let before = gather(kv, active, fewer, limit);
        let k = ids.last();
        let id = RequestId(k);
        let count = next_tokens(active[k]).len() as usize;
        assert(ids[ids.len() - 1] == k);
        if before.failed || before.rows.len() >= limit || !before.kv.can_append(id, count)
            || before.kv.next_reservation == u64::MAX {
            assert(g.rows == before.rows);
            assert(g.kv == before.kv);
        } else {
            law_begin_iff_can_append(before.kv, id, count);
            let row = g.rows.last();
            assert(reservations_backwards(g.rows) =~= seq![row.reservation_id]
                + reservations_backwards(before.rows));
            lemma_cancel_first(g.kv, row.reservation_id, reservations_backwards(before.rows));
            law_cancel_undoes_begin(before.kv, id, count);
            lemma_cancel_keeps_counter(
                before.kv,
                g.kv.next_reservation,
                reservations_backwards(before.rows),
            );
        }
    } else {
        assert(reservations_backwards(g.rows) =~= Seq::empty());
    }
}

/// The reservations of rows that own their sequences can be resolved, in either order.
proof fn lemma_rows_resolve(kv: KvModel, rows: Seq<RowModel>)
    requires
        kv.consistent(),
        distinct_rows(rows),
        forall|i: int|
            #![trigger rows[i]]
            0 <= i < rows.len() ==> kv.sequences.contains_key(rows[i].request_id.0)
                && kv.sequences[rows[i].request_id.0].pending == Some(rows[i].reservation_id),
    ensures
        kv.group_error(reservations_backwards(rows)) is None,
        kv.group_error(reservations_of(rows)) is None,
        owners_backwards(rows).no_duplicates(),
        owners_of(rows).no_duplicates(),
{
    let back = owners_backwards(rows);
    assert forall|i: int, j: int| 0 <= i < j < back.len() implies back[i] != back[j] by {
        assert(rows[rows.len() - 1 - j].request_id.0 != rows[rows.len() - 1 - i].request_id.0);
    }
    assert forall|i: int| 0 <= i < back.len() implies kv.sequences.contains_key(#[trigger] back[i])
        && kv.sequences[back[i]].pending == Some(reservations_backwards(rows)[i]) by {
        assert(rows[rows.len() - 1 - i].request_id.0 == back[i]);
    }
    lemma_group_resolves(kv, reservations_backwards(rows), back);
    let forth = owners_of(rows);
    assert forall|i: int, j: int| 0 <= i < j < forth.len() implies forth[i] != forth[j] by {
        assert(rows[i].request_id.0 != rows[j].request_id.0);
    }
    assert forall|i: int| 0 <= i < forth.len() implies kv.sequences.contains_key(
        #[trigger] forth[i],
    ) && kv.sequences[forth[i]].pending == Some(reservations_of(rows)[i]) by {
        assert(rows[i].request_id.0 == forth[i]);
    }
    lemma_group_resolves(kv, reservations_of(rows), forth);
}

/// A list of requests that a pass can be made over: admitted, distinct, and of the phase that the
/// kind of batch asks for.
pub open spec fn batchable(m: SchedulerModel, kind: ScheduledBatchKind, ids: Seq<u64>) -> bool {
    &&& ids.no_duplicates()
    &&& forall|i: int|
        0 <= i < ids.len() ==> m.active.contains_key(#[trigger] ids[i]) && match kind {
            ScheduledBatchKind::Prefill => m.active[ids[i]].phase is NeedsPrefill,
            ScheduledBatchKind::Decode => m.active[ids[i]].phase is AwaitingDecode,
        }
}

/// What gathering needs of a list of requests.
pub proof fn lemma_batchable(m: SchedulerModel, kind: ScheduledBatchKind, ids: Seq<u64>)
    requires
        m.inv(),
        batchable(m, kind, ids),
    ensures
        forall|i: int|
            0 <= i < ids.len() ==> m.kv.sequences.contains_key(#[trigger] ids[i]) && next_tokens(
                m.active[ids[i]],
            ).len() <= usize::MAX && next_tokens(m.active[ids[i]]).len() > 0,
{
    assert forall|i: int| 0 <= i < ids.len() implies m.kv.sequences.contains_key(#[trigger] ids[i])
        && next_tokens(m.active[ids[i]]).len() <= usize::MAX && next_tokens(
        m.active[ids[i]],
    ).len() > 0 by {
        assert(m.active.contains_key(ids[i]));
        assert(m.active_sound(ids[i]));
    }
}

/// Launching what was gathered keeps the invariant.
pub proof fn law_attempt_inv(
    m: SchedulerModel,
    kind: ScheduledBatchKind,
    ids: Seq<u64>,
    limit: int,
    prefer_prefill: bool,
)
    requires
        m.inv(),
        m.in_flight is None,
        m.next_batch < u64::MAX,
        batchable(m, kind, ids),
    ensures
        match m.attempt(kind, ids, limit).result {
            Ok(Some(batch)) => m.attempt(kind, ids, limit).after.launch(
                batch,
                prefer_prefill,
            ).inv(),
            _ => m.attempt(kind, ids, limit).after.inv(),
        },
{
    let tried = m.attempt(kind, ids, limit);
    let g = gather(m.kv, m.active, ids, limit);
    lemma_batchable(m, kind, ids);
    lemma_gather(m.kv, m.active, ids, limit);
    if g.failed {
        let after = tried.after;
        assert(after.kv.held_pages() == m.kv.held_pages());
        assert(after.kv.consistent()) by {
            assert forall|k: u64| #[trigger] after.kv.sequences.contains_key(k) implies after.kv.sequence_consistent(
            k) by {
                assert(m.kv.sequence_consistent(k));
            }
            assert forall|rid: u64| #[trigger] after.kv.reservations.contains_key(rid) implies rid
                < after.kv.next_reservation && after.kv.sequences.contains_key(
                after.kv.reservations[rid].request_id.0,
            ) && after.kv.sequences[after.kv.reservations[rid].request_id.0].pending == Some(
                KvReservationId(rid),
            ) by {
                assert(m.kv.reservations.contains_key(rid));
            }
            assert forall|a: u64, p: KvPageId| #[trigger]
                after.kv.holds(a, p) implies m.kv.holds(a, p) by {}
            assert forall|a: u64, b: u64, p: KvPageId| #[trigger]
                after.kv.holds(a, p) && #[trigger] after.kv.holds(b, p) implies a == b by {
                assert(m.kv.holds(a, p) && m.kv.holds(b, p));
            }
        }
        lemma_others_sound(m, after);
    } else if g.rows.len() > 0 {
        let batch = BatchModel { id: m.next_batch, kind, rows: g.rows };
        let after = tried.after.launch(batch, prefer_prefill);
        assert forall|i: int|
            #![trigger batch.rows[i]]
            0 <= i < batch.rows.len() implies after.row_sound(batch, i) by {
            let row = g.rows[i];
            let k = row.request_id.0;
            assert(row_gathered(m.kv, m.active, g, i));
            assert(has_row(g.rows, k));
            assert(ids.contains(k));
            let x = choose|x: int| 0 <= x < ids.len() && ids[x] == k;
            assert(m.active.contains_key(ids[x]));
            assert(m.active_sound(k));
        }
        assert forall|k: u64| #[trigger] after.active.contains_key(k) implies after.active_sound(
            k,
        ) by {
            assert(m.active.contains_key(k));
            assert(m.active_sound(k));
            if !has_row(g.rows, k) {
                assert(g.kv.sequences[k] == m.kv.sequences[k]);
            }
        }
        assert forall|k: u64| #[trigger] after.active.contains_key(k)
            <==> after.kv.sequences.contains_key(k) by {
            assert(m.active.contains_key(k) <==> m.kv.sequences.contains_key(k));
        }
        assert(after.active.dom() =~= m.active.dom());
        assert forall|i: int|
            #![trigger after.pending[i]]
            0 <= i < after.pending.len() implies after.pending_sound(i) by {
            assert(m.pending_sound(i));
        }
        lemma_sum_same(
            budget_weight(m.active, m.kv.config.block_size),
            budget_weight(after.active, m.kv.config.block_size),
            key_bound(),
        );
    }
}

/// Requests stay in order where only identifiers were used up.
proof fn lemma_others_sound(m: SchedulerModel, after: SchedulerModel)
    requires
        m.inv(),
        m.in_flight is None,
        after == (SchedulerModel {
            kv: KvModel { next_reservation: after.kv.next_reservation, ..m.kv },
            ..m
        }),
        after.kv.consistent(),
    ensures
        after.inv(),
{
    assert forall|k: u64| #[trigger] after.active.contains_key(k) implies after.active_sound(k) by {
        assert(m.active_sound(k));
    }
    assert forall|i: int|
        #![trigger after.pending[i]]
        0 <= i < after.pending.len() implies after.pending_sound(i) by {
        assert(m.pending_sound(i));
    }
    assert forall|k: u64| #[trigger] after.active.contains_key(k)
        <==> after.kv.sequences.contains_key(k) by {
        assert(m.active.contains_key(k) <==> m.kv.sequences.contains_key(k));
    }
}

/// A state between the commit of a batch and the end of its settlement: the rows from `n` on are
/// still to be settled.
pub open spec fn settling(m: SchedulerModel, batch: BatchModel, n: int) -> bool {
    &&& m.config.valid()
    &&& m.options.valid()
    &&& m.kv.consistent()
    &&& m.in_flight is None
    &&& m.active.dom().finite()
    &&& forall|k: u64| #[trigger] m.active.contains_key(k) <==> m.kv.sequences.contains_key(k)
    &&& forall|k: u64| #[trigger]
        m.active.contains_key(k) ==> if m.active[k].phase is InFlight {
            has_row(batch.rows.skip(n), k) && unsettled(m, k)
        } else {
            m.active_sound(k)
        }
    &&& forall|i: int|
        #![trigger batch.rows[i]]
        n <= i < batch.rows.len() ==> m.active.contains_key(batch.rows[i].request_id.0)
            && m.active[batch.rows[i].request_id.0].phase is InFlight
    &&& forall|i: int|
        #![trigger m.pending[i]]
        0 <= i < m.pending.len() ==> m.pending_sound(i)
    &&& m.queue_ordered()
    &&& m.reserves() ==> m.total_budget() <= m.kv.config.num_pages
    &&& distinct_rows(batch.rows)
}

/// A request whose pass is committed but whose token is not applied yet.
pub open spec fn unsettled(m: SchedulerModel, k: u64) -> bool {
    let r = m.active[k];
    let s = m.kv.sequences[k];
    &&& m.request_sound(r.prompt, r.max_new_tokens)
    &&& r.generated.len() < r.max_new_tokens
    &&& k < m.next_request
    &&& s.pending is None
    &&& s.committed_tokens == r.prompt.len() + r.generated.len()
}

/// Committing the reservations of a batch leaves every row to be settled.
pub proof fn lemma_commit_settling(m: SchedulerModel)
    requires
        m.inv(),
        m.in_flight is Some,
    ensures
        m.kv.group_error(reservations_of((m.in_flight->0).rows)) is None,
        settling(
            SchedulerModel {
                kv: m.kv.commit_all(reservations_of((m.in_flight->0).rows)),
                in_flight: None,
                ..m
            },
            m.in_flight->0,
            0,
        ),
{
    let batch = m.in_flight->0;
    let rows = batch.rows;
    let rids = reservations_of(rows);
    let owners = owners_of(rows);
    assert forall|i: int|
        #![trigger rows[i]]
        0 <= i < rows.len() implies m.kv.sequences.contains_key(rows[i].request_id.0)
        && m.kv.sequences[rows[i].request_id.0].pending == Some(rows[i].reservation_id) by {
        assert(m.row_sound(batch, i));
        assert(m.active.contains_key(rows[i].request_id.0));
    }
    lemma_rows_resolve(m.kv, rows);
    assert forall|i: int| 0 <= i < rids.len() implies m.kv.sequences.contains_key(
        #[trigger] owners[i],
    ) && m.kv.sequences[owners[i]].pending == Some(rids[i]) by {
        assert(rows[i].request_id.0 == owners[i]);
    }
    lemma_commit_effect(m.kv, rids, owners);
    let after = SchedulerModel { kv: m.kv.commit_all(rids), in_flight: None, ..m };
    assert(rows.skip(0) =~= rows);
    assert forall|k: u64| owners.contains(k) == #[trigger] has_row(rows, k) by {
        if owners.contains(k) {
            let i = choose|i: int| 0 <= i < owners.len() && owners[i] == k;
            assert(rows[i].request_id.0 == k);
        }
        if has_row(rows, k) {
            let i = choose|i: int| 0 <= i < rows.len() && (#[trigger] rows[i]).request_id.0 == k;
            assert(owners[i] == k);
        }
    }
    assert forall|k: u64| #[trigger] after.active.contains_key(k) implies if after.active[k].phase
        is InFlight {
        has_row(rows.skip(0), k) && unsettled(after, k)
    } else {
        after.active_sound(k)
    } by {
        assert(m.active_sound(k));
        if after.active[k].phase is InFlight {
            assert(has_row(rows, k));
            let i = choose|i: int| 0 <= i < rows.len() && (#[trigger] rows[i]).request_id.0 == k;
            assert(m.row_sound(batch, i));
            assert(owners[i] == k);
            lemma_pending_resolves(m.kv, k, rows[i].reservation_id);
            assert(m.kv.sequence_consistent(k));
        } else {
            if owners.contains(k) {
                assert(has_row(rows, k));
                let i = choose|i: int|
                    0 <= i < rows.len() && (#[trigger] rows[i]).request_id.0 == k;
                assert(m.row_sound(batch, i));
            }
            assert(after.kv.sequences[k] == m.kv.sequences[k]);
        }
    }
    assert forall|i: int|
        #![trigger rows[i]]
        0 <= i < rows.len() implies after.active.contains_key(rows[i].request_id.0)
        && after.active[rows[i].request_id.0].phase is InFlight by {
        assert(m.row_sound(batch, i));
    }
    assert forall|i: int|
        #![trigger after.pending[i]]
        0 <= i < after.pending.len() implies after.pending_sound(i) by {
        assert(m.pending_sound(i));
    }
    assert forall|k: u64| #[trigger] after.active.contains_key(k)
        <==> after.kv.sequences.contains_key(k) by {
        assert(m.active.contains_key(k) <==> m.kv.sequences.contains_key(k));
    }
}

/// Page budgets are not negative.
pub proof fn lemma_budget_non_negative(m: SchedulerModel, k: u64)
    requires
        m.kv.config.valid(),
    ensures
        budget_weight(m.active, m.kv.config.block_size)(k) >= 0,
{
    if m.active.contains_key(k) {
        let r = m.active[k];
        let n = r.prompt.len() + if r.max_new_tokens > 0 {
            r.max_new_tokens - 1
        } else {
            0
        };
        lemma_pages_for_order(0, n, m.kv.config.block_size as int);
    }
}

/// Settling one row.
pub proof fn lemma_settle_one(m: SchedulerModel, batch: BatchModel, n: int, token: i32)
    requires
        settling(m, batch, n),
        0 <= n < batch.rows.len(),
    ensures
        settling(m.settle(batch.rows[n], token), batch, n + 1),
        m.kv.remove_error(batch.rows[n].request_id) is None,
{
    let row = batch.rows[n];
    let k = row.request_id.0;
    let request = m.active[k];
    let after = m.settle(row, token);
    assert(m.active.contains_key(k));
    assert(unsettled(m, k));
    assert forall|x: u64| #[trigger] has_row(batch.rows.skip(n), x) && x != k implies has_row(
        batch.rows.skip(n + 1),
        x,
    ) by {
        let rest = batch.rows.skip(n);
        let i = choose|i: int| 0 <= i < rest.len() && (#[trigger] rest[i]).request_id.0 == x;
        assert(i > 0) by {
            if i == 0 {
                assert(rest[0] == batch.rows[n]);
            }
        }
        assert(batch.rows.skip(n + 1)[i - 1] == rest[i]);
    }
    let finished = request.eos.contains(token) || request.generated.push(token).len()
        >= request.max_new_tokens;
    if finished {
        law_remove_consistent(m.kv, row.request_id);
        assert(after.active.dom() =~= m.active.dom().remove(k));
        lemma_sum_change(
            budget_weight(m.active, m.kv.config.block_size),
            budget_weight(after.active, m.kv.config.block_size),
            k,
            key_bound(),
        );
        lemma_budget_non_negative(m, k);
    } else {
        assert(after.active.dom() =~= m.active.dom());
        lemma_sum_same(
            budget_weight(m.active, m.kv.config.block_size),
            budget_weight(after.active, m.kv.config.block_size),
            key_bound(),
        );
    }
    assert forall|x: u64| #[trigger] after.active.contains_key(x) implies if after.active[x].phase
        is InFlight {
        has_row(batch.rows.skip(n + 1), x) && unsettled(after, x)
    } else {
        after.active_sound(x)
    } by {
        assert(m.active.contains_key(x));
        if x != k {
            assert(after.active[x] == m.active[x]);
            assert(after.kv.sequences[x] == m.kv.sequences[x]);
        }
    }
    assert forall|i: int|
        #![trigger batch.rows[i]]
        n + 1 <= i < batch.rows.len() implies after.active.contains_key(batch.rows[i].request_id.0)
        && after.active[batch.rows[i].request_id.0].phase is InFlight by {
        assert(batch.rows[n].request_id.0 != batch.rows[i].request_id.0);
        assert(m.active.contains_key(batch.rows[i].request_id.0));
    }
    assert forall|i: int|
        #![trigger after.pending[i]]
        0 <= i < after.pending.len() implies after.pending_sound(i) by {
        assert(m.pending[i] == after.pending[i]);
        assert(m.pending_sound(i));
    }
    assert forall|x: u64| #[trigger] after.active.contains_key(x)
        <==> after.kv.sequences.contains_key(x) by {
        assert(m.active.contains_key(x) <==> m.kv.sequences.contains_key(x));
    }
}

/// Settling the first `n` rows.
pub proof fn lemma_settle_all(m: SchedulerModel, batch: BatchModel, tokens: Seq<i32>, n: int)
    requires
        settling(m, batch, 0),
        0 <= n <= batch.rows.len(),
        tokens.len() == batch.rows.len(),
    ensures
        settling(m.settle_all(batch.rows.take(n), tokens.take(n)), batch, n),
    decreases n,
{
    if n > 0 {
        lemma_settle_all(m, batch, tokens, n - 1);
        assert(batch.rows.take(n).drop_last() =~= batch.rows.take(n - 1));
        assert(tokens.take(n).drop_last() =~= tokens.take(n - 1));
        lemma_settle_one(
            m.settle_all(batch.rows.take(n - 1), tokens.take(n - 1)),
            batch,
            n - 1,
            tokens[n - 1],
        );
    }
}

/// A settled batch leaves a state that satisfies the invariant.
pub proof fn lemma_settled_inv(m: SchedulerModel, batch: BatchModel)
    requires
        settling(m, batch, batch.rows.len() as int),
    ensures
        m.inv(),
{
    assert forall|k: u64| #[trigger] m.active.contains_key(k) implies m.active_sound(k) by {
        if m.active[k].phase is InFlight {
            assert(has_row(batch.rows.skip(batch.rows.len() as int), k));
        }
    }
}

/// Completing a batch keeps the invariant.
pub proof fn law_complete_inv(m: SchedulerModel, batch_id: u64, tokens: Seq<i32>)
    requires
        m.inv(),
        m.complete_error(batch_id, tokens) is None,
    ensures
        m.complete_state(tokens).inv(),
        m.complete_state(tokens).in_flight is None,
{
    let batch = m.in_flight->0;
    let start = SchedulerModel {
        kv: m.kv.commit_all(reservations_of(batch.rows)),
        in_flight: None,
        ..m
    };
    lemma_commit_settling(m);
    lemma_settle_all(start, batch, tokens, batch.rows.len() as int);
    assert(batch.rows.take(batch.rows.len() as int) =~= batch.rows);
    assert(tokens.take(batch.rows.len() as int) =~= tokens);
    lemma_settled_inv(m.complete_state(tokens), batch);
}

/// What restoring phases does to each request.
pub proof fn lemma_restored(
    active: Map<u64, RequestModel>,
    kind: ScheduledBatchKind,
    rows: Seq<RowModel>,
)
    requires
        distinct_rows(rows),
        forall|i: int|
            #![trigger rows[i]]
            0 <= i < rows.len() ==> active.contains_key(rows[i].request_id.0),
    ensures
        forall|k: u64| #[trigger]
            restored(active, kind, rows).contains_key(k) <==> active.contains_key(k),
        forall|k: u64|
            !has_row(rows, k) ==> #[trigger] restored(active, kind, rows)[k] == active[k],
        forall|i: int|
            #![trigger rows[i]]
            0 <= i < rows.len() ==> restored(active, kind, rows)[rows[i].request_id.0] == (
            RequestModel {
                phase: SchedulerModel::phase_before(kind, rows[i]),
                ..active[rows[i].request_id.0]
            }),
        restored(active, kind, rows).dom() == active.dom(),
    decreases rows.len(),
{
    if rows.len() > 0 {
        let fewer = rows.drop_last();
        let n = rows.len() - 1;
        assert forall|i: int|
            #![trigger fewer[i]]
            0 <= i < fewer.len() implies active.contains_key(fewer[i].request_id.0) by {
            assert(fewer[i] == rows[i]);
        }
        assert(distinct_rows(fewer)) by {
            assert forall|i: int, j: int| 0 <= i < j < fewer.len() implies (
            #[trigger] fewer[i]).request_id.0 != (#[trigger] fewer[j]).request_id.0 by {
                assert(fewer[i] == rows[i]);
                assert(fewer[j] == rows[j]);
            }
        }
        lemma_restored(active, kind, fewer);
        let rest = restored(active, kind, fewer);
        let all = restored(active, kind, rows);
        let id = rows[n].request_id.0;
        assert(active.contains_key(id));
        assert(!has_row(fewer, id)) by {
            if has_row(fewer, id) {
                let i = choose|i: int|
                    0 <= i < fewer.len() && (#[trigger] fewer[i]).request_id.0 == id;
                assert(rows[i].request_id.0 != rows[n].request_id.0);
            }
        }
        assert(rest[id] == active[id]);
        assert forall|k: u64| !has_row(rows, k) implies #[trigger] all[k] == active[k] by {
            assert(rows[n].request_id.0 != k);
            if has_row(fewer, k) {
                let i = choose|i: int|
                    0 <= i < fewer.len() && (#[trigger] fewer[i]).request_id.0 == k;
                assert(rows[i].request_id.0 == k);
            }
            assert(rest[k] == active[k]);
        }
        assert forall|i: int|
            #![trigger rows[i]]
            0 <= i < rows.len() implies all[rows[i].request_id.0] == (RequestModel {
            phase: SchedulerModel::phase_before(kind, rows[i]),
            ..active[rows[i].request_id.0]
        }) by {
            if i < n {
                assert(fewer[i] == rows[i]);
                assert(rows[i].request_id.0 != rows[n].request_id.0);
            }
        }
        assert(all.dom() =~= active.dom());
    }
}

/// Rolling a batch back keeps the invariant.
pub proof fn law_fail_inv(m: SchedulerModel, batch_id: u64)
    requires
        m.inv(),
        m.batch_error(batch_id) is None,
    ensures
        m.kv.group_error(reservations_backwards((m.in_flight->0).rows)) is None,
        m.fail_state().inv(),
{
    let batch = m.in_flight->0;
    let rows = batch.rows;
    let rids = reservations_backwards(rows);
    let owners = owners_backwards(rows);
    let after = m.fail_state();
    assert forall|i: int|
        #![trigger rows[i]]
        0 <= i < rows.len() implies m.kv.sequences.contains_key(rows[i].request_id.0)
        && m.kv.sequences[rows[i].request_id.0].pending == Some(rows[i].reservation_id)
        && m.active.contains_key(rows[i].request_id.0) by {
        assert(m.row_sound(batch, i));
        assert(m.active.contains_key(rows[i].request_id.0));
    }
    lemma_rows_resolve(m.kv, rows);
    assert forall|i: int| 0 <= i < rids.len() implies m.kv.sequences.contains_key(
        #[trigger] owners[i],
    ) && m.kv.sequences[owners[i]].pending == Some(rids[i]) by {
        assert(rows[rows.len() - 1 - i].request_id.0 == owners[i]);
    }
    lemma_cancel_effect(m.kv, rids, owners);
    lemma_restored(m.active, batch.kind, rows);
    assert forall|k: u64| owners.contains(k) == #[trigger] has_row(rows, k) by {
        if owners.contains(k) {
            let i = choose|i: int| 0 <= i < owners.len() && owners[i] == k;
            assert(rows[rows.len() - 1 - i].request_id.0 == k);
        }
        if has_row(rows, k) {
            let i = choose|i: int| 0 <= i < rows.len() && (#[trigger] rows[i]).request_id.0 == k;
            assert(owners[rows.len() - 1 - i] == k);
        }
    }
    assert forall|k: u64| #[trigger] after.active.contains_key(k) implies after.active_sound(k) by {
        assert(m.active.contains_key(k));
        assert(m.active_sound(k));
        if has_row(rows, k) {
            let i = choose|i: int| 0 <= i < rows.len() && (#[trigger] rows[i]).request_id.0 == k;
            assert(m.row_sound(batch, i));
            assert(owners[rows.len() - 1 - i] == k);
        } else {
            assert(!owners.contains(k));
            assert(after.kv.sequences[k] == m.kv.sequences[k]);
            assert(after.active[k] == m.active[k]);
        }
    }
    assert forall|i: int|
        #![trigger after.pending[i]]
        0 <= i < after.pending.len() implies after.pending_sound(i) by {
        assert(m.pending[i] == after.pending[i]);
        assert(m.pending_sound(i));
    }
    assert forall|k: u64| #[trigger] after.active.contains_key(k)
        <==> after.kv.sequences.contains_key(k) by {
        assert(m.active.contains_key(k) <==> m.kv.sequences.contains_key(k));
    }
    assert forall|k: u64| #[trigger] budget_weight(m.active, m.kv.config.block_size)(k)
        == budget_weight(after.active, m.kv.config.block_size)(k) by {
        if m.active.contains_key(k) && has_row(rows, k) {
            let i = choose|i: int| 0 <= i < rows.len() && (#[trigger] rows[i]).request_id.0 == k;
            assert(rows[i].request_id.0 == k);
        } else {
            assert(after.active[k] == m.active[k]);
        }
    }
    lemma_sum_same(
        budget_weight(m.active, m.kv.config.block_size),
        budget_weight(after.active, m.kv.config.block_size),
        key_bound(),
    );
}

/// Taking a request out of the queue keeps the invariant.
pub proof fn law_unqueue_inv(m: SchedulerModel, i: int)
    requires
        m.inv(),
        0 <= i < m.pending.len(),
    ensures
        (SchedulerModel { pending: m.pending.remove(i), ..m }).inv(),
{
    let after = SchedulerModel { pending: m.pending.remove(i), ..m };
    assert forall|k: u64| #[trigger] after.active.contains_key(k) implies after.active_sound(k) by {
        assert(m.active_sound(k));
    }
    assert forall|j: int|
        #![trigger after.pending[j]]
        0 <= j < after.pending.len() implies after.pending_sound(j) by {
        let x = if j < i { j } else { j + 1 };
        assert(after.pending[j] == m.pending[x]);
        assert(m.pending_sound(x));
    }
    assert forall|a: int, b: int| 0 <= a < b < after.pending.len() implies (
    #[trigger] after.pending[a]).id.0 < (#[trigger] after.pending[b]).id.0 by {
        let x = if a < i { a } else { a + 1 };
        let y = if b < i { b } else { b + 1 };
        assert(after.pending[a] == m.pending[x]);
        assert(after.pending[b] == m.pending[y]);
    }
    if let Some(batch) = after.in_flight {
        lemma_batch_same(m, after, batch);
    }
}

/// Removing a request that is not in flight keeps the invariant.
pub proof fn law_drop_active_inv(m: SchedulerModel, id: RequestId)
    requires
        m.inv(),
        m.active.contains_key(id.0),
        !(m.active[id.0].phase is InFlight),
    ensures
        m.kv.remove_error(id) is None,
        (SchedulerModel {
            kv: m.kv.remove_state(id),
            active: m.active.remove(id.0),
            ..m
        }).inv(),
{
    let after = SchedulerModel {
        kv: m.kv.remove_state(id),
        active: m.active.remove(id.0),
        ..m
    };
    assert(m.active_sound(id.0));
    law_remove_consistent(m.kv, id);
    assert(after.active.dom() =~= m.active.dom().remove(id.0));
    assert forall|k: u64| #[trigger] after.active.contains_key(k) implies after.active_sound(k) by {
        assert(m.active_sound(k));
    }
    assert forall|i: int|
        #![trigger after.pending[i]]
        0 <= i < after.pending.len() implies after.pending_sound(i) by {
        assert(m.pending[i] == after.pending[i]);
        assert(m.pending_sound(i));
    }
    assert forall|k: u64| #[trigger] after.active.contains_key(k)
        <==> after.kv.sequences.contains_key(k) by {
        assert(m.active.contains_key(k) <==> m.kv.sequences.contains_key(k));
    }
    lemma_sum_change(
        budget_weight(m.active, m.kv.config.block_size),
        budget_weight(after.active, m.kv.config.block_size),
        id.0,
        key_bound(),
    );
    lemma_budget_non_negative(m, id.0);
    if let Some(batch) = after.in_flight {
        assert forall|k: u64| #[trigger] has_row(batch.rows, k) implies after.active.contains_key(k)
            == m.active.contains_key(k) && after.active[k] == m.active[k] && after.kv.sequences[k]
            == m.kv.sequences[k] by {
            let i = choose|i: int|
                0 <= i < batch.rows.len() && (#[trigger] batch.rows[i]).request_id.0 == k;
            assert(m.row_sound(batch, i));
            assert(k != id.0);
        }
        lemma_batch_same(m, after, batch);
    }
}

} // verus!
