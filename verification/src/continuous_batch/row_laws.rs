//! What a batch hands to the model: which requests it takes up, which of their tokens, and where
//! their keys and values go.

use crate::continuous_batch::batch::{ContinuousBatchError, RowModel, ScheduledBatchKind};
use crate::continuous_batch::laws::{
    lemma_best_exists, lemma_bucket_batchable, lemma_decode_batchable, lemma_gather_finds,
    lemma_listing_lists,
};
use crate::continuous_batch::model::{
    gather, has_row, next_tokens, RequestModel, RequestPhase, SchedulerModel,
};
use crate::continuous_batch::sampling::{row_choice, row_logits, selects, BatchTokenSelection};
use crate::continuous_batch::soundness::{
    batchable, law_promoted_inv, lemma_batchable, lemma_gather, row_gathered,
};
use crate::continuous_batch::submitted;
use crate::generation::sampling::{sampled, SamplerModel, SamplingArithmetic};
use crate::paged_kv::{lowest, pages_for, KvModel, KvPageId, RequestId};
use vstd::prelude::*;

verus! {

/// All tokens of a request: its prompt, and what was generated.
pub open spec fn whole(request: RequestModel) -> Seq<i32> {
    request.prompt + request.generated
}

/// A row hands the model the end of a request's sequence that it has not read: the prompt at first,
/// and one generated token after another from then on, at the places that follow what was read.
pub open spec fn reads_on(request: RequestModel, row: RowModel) -> bool {
    let all = whole(request);
    &&& row.context_length == all.len()
    &&& row.start_position == if request.generated.len() == 0 {
        0
    } else {
        all.len() - 1
    }
    &&& row.token_ids == all.skip(row.start_position as int)
}

/// A block table has a page for every position, and none besides.
pub open spec fn covers(row: RowModel, block_size: usize) -> bool {
    let n = row.block_table.len();
    &&& (n - 1) * block_size < row.context_length <= n * block_size
}

/// The page of a position, and the place in the page.
pub open spec fn slot(row: RowModel, block_size: usize, position: int) -> (KvPageId, int) {
    (row.block_table[position / block_size as int], position % block_size as int)
}

/// The rows of a gathered batch.
proof fn lemma_gathered_rows(
    m: SchedulerModel,
    kind: ScheduledBatchKind,
    ids: Seq<u64>,
    limit: int,
    i: int,
)
    requires
        m.inv(),
        batchable(m, kind, ids),
        0 <= i < gather(m.kv, m.active, ids, limit).rows.len(),
    ensures
        ({
            let g = gather(m.kv, m.active, ids, limit);
            let row = g.rows[i];
            let k = row.request_id.0;
            &&& g.kv.consistent()
            &&& m.active.contains_key(k)
            &&& reads_on(m.active[k], row)
            &&& covers(row, m.kv.config.block_size)
            &&& g.kv.sequences.contains_key(k)
            &&& g.kv.sequences[k].pages == row.block_table
            &&& g.kv.config == m.kv.config
            &&& (kind is Prefill <==> m.active[k].generated.len() == 0)
        }),
{
    let g = gather(m.kv, m.active, ids, limit);
    lemma_batchable(m, kind, ids);
    lemma_gather(m.kv, m.active, ids, limit);
    assert(row_gathered(m.kv, m.active, g, i));
    let row = g.rows[i];
    let k = row.request_id.0;
    assert(has_row(g.rows, k));
    assert(ids.contains(k));
    let x = choose|x: int| 0 <= x < ids.len() && ids[x] == k;
    assert(m.active.contains_key(ids[x]));
    assert(m.active_sound(k));
    let r = m.active[k];
    let all = whole(r);
    match r.phase {
        RequestPhase::NeedsPrefill => {
            assert(row.token_ids =~= all.skip(0));
        },
        RequestPhase::AwaitingDecode(token) => {
            assert(all.skip(all.len() - 1) =~= seq![token]);
        },
        RequestPhase::InFlight(_) => {},
    }
    assert(g.kv.sequences.contains_key(k));
    assert(g.kv.sequence_consistent(k));
    lemma_pages(row.context_length as int, m.kv.config.block_size as int);
}

/// As many pages as some tokens need have room for them, and one less would not.
proof fn lemma_pages(tokens: int, block: int)
    requires
        block > 0,
    ensures
        (pages_for(tokens, block) - 1) * block < tokens <= pages_for(tokens, block) * block,
{
    let n = pages_for(tokens, block);
    assert((n - 1) * block < tokens <= n * block) by (nonlinear_arith)
        requires
            n == (tokens + block - 1) / block,
            block > 0,
    ;
}

/// Every row of a batch hands the model exactly what it has not read of a request that was
/// admitted: a prompt in a batch of prompts, and the latest token otherwise. Its block table has a
/// page for every position; two positions of one request, or of two, never share a place.
pub proof fn law_rows_read_on(m: SchedulerModel)
    requires
        m.inv(),
        m.schedule().result matches Ok(Some(_)),
    ensures
        ({
            let batch = (m.schedule().result->Ok_0)->0;
            let active = m.promoted().active;
            let block = m.kv.config.block_size;
            &&& forall|i: int|
                #![trigger batch.rows[i]]
                0 <= i < batch.rows.len() ==> {
                    let row = batch.rows[i];
                    let k = row.request_id.0;
                    &&& active.contains_key(k)
                    &&& reads_on(active[k], row)
                    &&& covers(row, block)
                    &&& (batch.kind is Prefill <==> active[k].generated.len() == 0)
                }
            &&& forall|i: int, j: int, a: int, b: int|
                0 <= i < batch.rows.len() && 0 <= j < batch.rows.len() && 0 <= a
                    < batch.rows[i].context_length && 0 <= b < batch.rows[j].context_length && (i
                    != j || a != b) ==> #[trigger] slot(batch.rows[i], block, a)
                    != #[trigger] slot(batch.rows[j], block, b)
        }),
{
    law_promoted_inv(m);
    let p = m.promoted();
    lemma_promoted_config(m);
    let batch = (m.schedule().result->Ok_0)->0;
    if batch.kind is Decode {
        lemma_decode_batchable(p);
        lemma_batch_reads_on(
            p,
            ScheduledBatchKind::Decode,
            p.decode_candidates(),
            p.config.max_batch_tokens as int,
        );
    } else {
        let n = choose|n: nat| p.best_length(n);
        lemma_bucket_batchable(p, n);
        lemma_batch_reads_on(
            p,
            ScheduledBatchKind::Prefill,
            p.bucket(n),
            p.config.max_batch_tokens as int / n as int,
        );
    }
}

/// Admitting requests keeps the configuration.
proof fn lemma_promoted_config(m: SchedulerModel)
    ensures
        m.promoted().kv.config == m.kv.config,
        m.promoted().config == m.config,
        m.promoted().prefer_prefill == m.prefer_prefill,
    decreases m.pending.len(),
{
    if m.can_admit() {
        lemma_promoted_config(m.promote_front());
    }
}

proof fn lemma_batch_reads_on(
    m: SchedulerModel,
    kind: ScheduledBatchKind,
    ids: Seq<u64>,
    limit: int,
)
    requires
        m.inv(),
        batchable(m, kind, ids),
    ensures
        ({
            let rows = gather(m.kv, m.active, ids, limit).rows;
            let block = m.kv.config.block_size;
            &&& forall|i: int|
                #![trigger rows[i]]
                0 <= i < rows.len() ==> {
                    let k = rows[i].request_id.0;
                    &&& m.active.contains_key(k)
                    &&& reads_on(m.active[k], rows[i])
                    &&& covers(rows[i], block)
                    &&& (kind is Prefill <==> m.active[k].generated.len() == 0)
                }
            &&& forall|i: int, j: int, a: int, b: int|
                0 <= i < rows.len() && 0 <= j < rows.len() && 0 <= a < rows[i].context_length && 0
                    <= b < rows[j].context_length && (i != j || a != b) ==> #[trigger] slot(
                    rows[i],
                    block,
                    a,
                ) != #[trigger] slot(rows[j], block, b)
        }),
{
    let g = gather(m.kv, m.active, ids, limit);
    let rows = g.rows;
    let block = m.kv.config.block_size;
    lemma_batchable(m, kind, ids);
    lemma_gather(m.kv, m.active, ids, limit);
    assert forall|i: int|
        #![trigger rows[i]]
        0 <= i < rows.len() implies {
        let k = rows[i].request_id.0;
        &&& m.active.contains_key(k)
        &&& reads_on(m.active[k], rows[i])
        &&& covers(rows[i], block)
        &&& (kind is Prefill <==> m.active[k].generated.len() == 0)
    } by {
        lemma_gathered_rows(m, kind, ids, limit, i);
    }
    assert forall|i: int, j: int, a: int, b: int|
        0 <= i < rows.len() && 0 <= j < rows.len() && 0 <= a < rows[i].context_length && 0 <= b
            < rows[j].context_length && (i != j || a != b) implies #[trigger] slot(
        rows[i],
        block,
        a,
    ) != #[trigger] slot(rows[j], block, b) by {
        lemma_gathered_rows(m, kind, ids, limit, i);
        lemma_gathered_rows(m, kind, ids, limit, j);
        let x = a / block as int;
        let y = b / block as int;
        lemma_page_index(a, rows[i].block_table.len() as int, block as int);
        lemma_page_index(b, rows[j].block_table.len() as int, block as int);
        let k = rows[i].request_id.0;
        let o = rows[j].request_id.0;
        if rows[i].block_table[x] == rows[j].block_table[y] {
            let page = rows[i].block_table[x];
            assert(g.kv.holds(k, page)) by {
                assert(g.kv.sequences[k].pages[x] == page);
            }
            assert(g.kv.holds(o, page)) by {
                assert(g.kv.sequences[o].pages[y] == page);
            }
            assert(k == o);
            if i < j {
                assert(rows[i].request_id.0 != rows[j].request_id.0);
            } else if j < i {
                assert(rows[j].request_id.0 != rows[i].request_id.0);
            }
            assert(i == j);
            assert(g.kv.sequence_consistent(k));
            assert(x == y);
            vstd::arithmetic::div_mod::lemma_fundamental_div_mod(a, block as int);
            vstd::arithmetic::div_mod::lemma_fundamental_div_mod(b, block as int);
        }
    }
}

proof fn lemma_page_index(position: int, pages: int, block: int)
    requires
        block > 0,
        0 <= position < pages * block,
    ensures
        0 <= position / block < pages,
{
    let x = position / block;
    assert(0 <= x < pages) by (nonlinear_arith)
        requires
            x == position / block,
            block > 0,
            0 <= position < pages * block,
    ;
}

/// A request that waits for its prompt to be read, or for its next token, and that there is room
/// for.
pub open spec fn could_go(m: SchedulerModel, k: u64) -> bool {
    &&& m.active.contains_key(k)
    &&& m.active[k].phase is NeedsPrefill || m.active[k].phase is AwaitingDecode
    &&& m.kv.can_append(RequestId(k), next_tokens(m.active[k]).len() as usize)
}

/// Prompts and next tokens are taken in alternation: a batch of the kind that was taken last is
/// only put together where no request of the other kind could go on, and nothing is put together
/// only where no request could.
pub proof fn law_kinds_alternate(m: SchedulerModel, k: u64)
    requires
        m.inv(),
        m.in_flight is None,
        m.schedule().result is Ok,
        could_go(m.promoted(), k),
    ensures
        ({
            let result = m.schedule().result->Ok_0;
            let first = m.promoted().active[k].generated.len() == 0;
            &&& result is Some
            &&& m.prefer_prefill && first ==> result->0.kind is Prefill
            &&& !m.prefer_prefill && !first ==> result->0.kind is Decode
            &&& m.schedule().after.prefer_prefill == (result->0.kind is Decode)
        }),
{
    law_promoted_inv(m);
    lemma_promoted_config(m);
    let p = m.promoted();
    assert(p.active_sound(k));
    if p.active[k].phase is AwaitingDecode {
        let ready = |x: u64, r: RequestModel| r.phase is AwaitingDecode;
        lemma_listing_lists(p.active, ready);
        let ids = p.decode_candidates();
        assert(ids.contains(k));
        lemma_gather_takes(p.kv, p.active, ids, p.config.max_batch_tokens as int, k);
    } else {
        let n = p.active[k].prompt.len();
        lemma_listing_lists(p.active, p.ready_of_length(n));
        assert(p.ready_of_length(n)(k, p.active[k]));
        assert(p.bucket(n).contains(k));
        lemma_best_exists(p, n);
        let best = choose|b: nat| p.best_length(b);
        lemma_bucket_batchable(p, best);
        let first = p.bucket(best)[0];
        assert(p.prefill_ready(first, p.active[first]));
        assert(p.active.contains_key(first));
        assert(p.active_sound(first));
        let limit = p.config.max_batch_tokens as int / best as int;
        assert(limit > 0) by (nonlinear_arith)
            requires
                limit == p.config.max_batch_tokens as int / best as int,
                0 < best <= p.config.max_batch_tokens,
        ;
        lemma_gather_finds(p.kv, p.active, p.bucket(best), limit);
    }
}

/// Gathering takes up some request where one of those that are listed has room.
proof fn lemma_gather_takes(
    kv: KvModel,
    active: Map<u64, RequestModel>,
    ids: Seq<u64>,
    limit: int,
    k: u64,
)
    requires
        ids.contains(k),
        limit > 0,
        kv.can_append(RequestId(k), next_tokens(active[k]).len() as usize),
    ensures
        ({
            let g = gather(kv, active, ids, limit);
            g.rows.len() > 0 || g.failed
        }),
    decreases ids.len(),
{
    lemma_untouched(kv, active, ids.drop_last(), limit);
    if ids.last() != k {
        let i = choose|i: int| 0 <= i < ids.len() && ids[i] == k;
        assert(ids.drop_last()[i] == k);
        lemma_gather_takes(kv, active, ids.drop_last(), limit, k);
    }
}

/// Where no row was gathered, nothing was reserved.
proof fn lemma_untouched(kv: KvModel, active: Map<u64, RequestModel>, ids: Seq<u64>, limit: int)
    ensures
        ({
            let g = gather(kv, active, ids, limit);
            g.rows.len() == 0 ==> g.kv == kv
        }),
    decreases ids.len(),
{
    if ids.len() > 0 {
        lemma_untouched(kv, active, ids.drop_last(), limit);
    }
}

/// A batch leaves no request of its kind behind that there still is room for: a request that waits
/// for its next token goes with a batch of next tokens unless the batch is full or the pages that
/// are left do not suffice.
pub proof fn law_next_tokens_are_batched(m: SchedulerModel, k: u64)
    requires
        m.inv(),
        m.schedule().result matches Ok(Some(_)),
        ((m.schedule().result->Ok_0)->0).kind is Decode,
        m.promoted().active.contains_key(k),
        m.promoted().active[k].generated.len() > 0,
    ensures
        ({
            let batch = (m.schedule().result->Ok_0)->0;
            ||| has_row(batch.rows, k)
            ||| batch.rows.len() == m.config.max_batch_tokens
            ||| !m.schedule().after.kv.can_append(RequestId(k), 1)
        }),
{
    law_promoted_inv(m);
    lemma_promoted_config(m);
    let p = m.promoted();
    assert(p.active_sound(k));
    assert(p.active[k].phase is AwaitingDecode);
    let ready = |x: u64, r: RequestModel| r.phase is AwaitingDecode;
    lemma_listing_lists(p.active, ready);
    lemma_decode_batchable(p);
    let ids = p.decode_candidates();
    assert(ids.contains(k));
    lemma_batchable(p, ScheduledBatchKind::Decode, ids);
    lemma_left_out(p.kv, p.active, ids, p.config.max_batch_tokens as int, k);
    lemma_gather(p.kv, p.active, ids, p.config.max_batch_tokens as int);
}

/// A request that is listed and gets no row had no room, or the batch was full.
proof fn lemma_left_out(
    kv: KvModel,
    active: Map<u64, RequestModel>,
    ids: Seq<u64>,
    limit: int,
    k: u64,
)
    requires
        kv.consistent(),
        ids.no_duplicates(),
        forall|i: int|
            0 <= i < ids.len() ==> kv.sequences.contains_key(#[trigger] ids[i]) && next_tokens(
                active[ids[i]],
            ).len() <= usize::MAX,
        ids.contains(k),
    ensures
        ({
            let g = gather(kv, active, ids, limit);
            let count = next_tokens(active[k]).len() as usize;
            has_row(g.rows, k) || g.failed || g.rows.len() >= limit || !g.kv.can_append(
                RequestId(k),
                count,
            )
        }),
    decreases ids.len(),
{
    let g = gather(kv, active, ids, limit);
    let fewer = ids.drop_last();
    let before = gather(kv, active, fewer, limit);
    assert forall|i: int| 0 <= i < fewer.len() implies kv.sequences.contains_key(
        #[trigger] fewer[i],
    ) && next_tokens(active[fewer[i]]).len() <= usize::MAX by {
        assert(fewer[i] == ids[i]);
    }
    lemma_gather(kv, active, fewer, limit);
    let last = ids.last();
    if last == k {
        if g.rows.len() > before.rows.len() {
            assert(g.rows[g.rows.len() - 1].request_id.0 == k);
        }
    } else {
        let i = choose|i: int| 0 <= i < ids.len() && ids[i] == k;
        assert(fewer[i] == k);
        lemma_left_out(kv, active, fewer, limit, k);
        if has_row(before.rows, k) {
            let x = choose|x: int|
                0 <= x < before.rows.len() && (#[trigger] before.rows[x]).request_id.0 == k;
            assert(g.rows[x] == before.rows[x]);
        } else if g.rows.len() > before.rows.len() {
            let count = next_tokens(active[last]).len() as usize;
            let fresh = lowest(
                before.kv.free,
                before.kv.additional_pages(RequestId(last), count) as nat,
            );
            assert(before.kv.free.finite());
            vstd::set_lib::lemma_len_subset(
                before.kv.free.difference(fresh.to_set()),
                before.kv.free,
            );
        }
    }
}


/// The admitted requests with prompts of `n` tokens that could be read now.
pub open spec fn ready(m: SchedulerModel, n: nat) -> Set<u64> {
    Set::new(
        |k: u64|
            could_go(m, k) && m.active[k].phase is NeedsPrefill && m.active[k].prompt.len() == n,
    )
}

/// How many tokens of prompts of `n` tokens a batch can take at once.
pub open spec fn takable(m: SchedulerModel, n: nat) -> int {
    let most = m.config.max_batch_tokens as int / n as int;
    let there = ready(m, n).len() as int;
    if there < most {
        there * n
    } else {
        most * n
    }
}

/// A batch of prompts has the length of which a batch can take the most tokens, and where two
/// lengths are equal in that, the one with the oldest request.
pub proof fn law_prompts_fill_batches(m: SchedulerModel, k: u64)
    requires
        m.inv(),
        m.schedule().result matches Ok(Some(_)),
        ((m.schedule().result->Ok_0)->0).kind is Prefill,
        could_go(m.promoted(), k),
        m.promoted().active[k].phase is NeedsPrefill,
    ensures
        ({
            let batch = (m.schedule().result->Ok_0)->0;
            let p = m.promoted();
            let n = batch.rows[0].token_ids.len();
            let other = p.active[k].prompt.len();
            &&& ready(p, n).contains(batch.rows[0].request_id.0)
            &&& takable(p, other) <= takable(p, n)
            &&& takable(p, other) == takable(p, n) ==> exists|oldest: u64| #[trigger]
                ready(p, n).contains(oldest) && oldest <= k
        }),
{
    law_promoted_inv(m);
    lemma_promoted_config(m);
    let p = m.promoted();
    let batch = (m.schedule().result->Ok_0)->0;
    let best = choose|b: nat| p.best_length(b);
    let other = p.active[k].prompt.len();
    lemma_ready(p, best);
    lemma_ready(p, other);
    assert(p.best_length(best));
    assert(ready(p, other).contains(k));
    let ids = p.bucket(best);
    let limit = p.config.max_batch_tokens as int / best as int;
    lemma_bucket_batchable(p, best);
    lemma_batchable(p, ScheduledBatchKind::Prefill, ids);
    lemma_gather(p.kv, p.active, ids, limit);
    let g = gather(p.kv, p.active, ids, limit);
    assert(row_gathered(p.kv, p.active, g, 0));
    let first = g.rows[0].request_id.0;
    assert(has_row(g.rows, first));
    assert(ids.contains(first));
    let x = choose|x: int| 0 <= x < ids.len() && ids[x] == first;
    assert(p.prefill_ready(ids[x], p.active[ids[x]]));
    assert(batch.rows[0].token_ids.len() == best);
    assert(p.bucket(other).contains(k));
    let y = choose|y: int| 0 <= y < p.bucket(other).len() && p.bucket(other)[y] == k;
    lemma_listing_lists(p.active, p.ready_of_length(other));
    assert(p.bucket(other)[0] <= k) by {
        if y > 0 {
            assert(p.bucket(other)[0] < p.bucket(other)[y]);
        }
    }
    assert(ids.contains(ids[0]));
    assert(ready(p, best).contains(ids[0]));
}

/// The requests that are listed by the length of their prompts are those that are ready.
proof fn lemma_ready(m: SchedulerModel, n: nat)
    ensures
        forall|k: u64| #[trigger] ready(m, n).contains(k) <==> m.bucket(n).contains(k),
        ready(m, n).len() == m.bucket(n).len(),
        takable(m, n) == m.useful_tokens(n),
{
    lemma_listing_lists(m.active, m.ready_of_length(n));
    lemma_bucket_batchable(m, n);
    let ids = m.bucket(n);
    assert forall|k: u64| #[trigger] ready(m, n).contains(k) <==> ids.contains(k) by {
        if ready(m, n).contains(k) {
            assert(m.ready_of_length(n)(k, m.active[k]));
        }
        if ids.contains(k) {
            assert(m.active.contains_key(k) && m.ready_of_length(n)(k, m.active[k]));
        }
    }
    assert(ids.to_set() =~= ready(m, n));
    ids.unique_seq_to_set();
}

/// Where a logit stands among others: binary32 numbers by sign and magnitude.
pub open spec fn rank(bits: u32) -> int {
    if bits < 0x8000_0000 {
        bits as int
    } else {
        0x8000_0000 - bits
    }
}

/// The token of each row of a batch comes from that row's own logits: it is the first of the
/// greatest ones for a greedy request, what is not a number left aside, and what the request's own
/// sampler draws from them for another.
pub proof fn law_tokens_come_from_their_rows<A: SamplingArithmetic>(
    arithmetic: &A,
    m: SchedulerModel,
    batch_id: u64,
    logits: Seq<u32>,
    vocabulary: usize,
    selection: BatchTokenSelection,
    i: int,
)
    requires
        selects(arithmetic, m, batch_id, logits, vocabulary, selection),
        0 <= i < (m.in_flight->0).rows.len(),
    ensures
        ({
            let row = (m.in_flight->0).rows[i];
            let token = selection.tokens@[i];
            let start = i * vocabulary;
            match m.active[row.request_id.0].sampler {
                None => {
                    &&& 0 <= token < vocabulary
                    &&& -0x7F80_0000 <= rank(logits[start + token]) <= 0x7F80_0000
                    &&& forall|j: int|
                        0 <= j < vocabulary && -0x7F80_0000 <= rank(#[trigger] logits[start + j])
                            <= 0x7F80_0000 ==> rank(logits[start + j]) <= rank(
                            logits[start + token],
                        ) && (j < token ==> rank(logits[start + j]) < rank(logits[start + token]))
                },
                Some(sampler) => exists|own: &[u32]| #[trigger]
                    sampled(arithmetic, sampler, own, token) && own@.len() == vocabulary
                        && forall|j: int|
                        0 <= j < vocabulary ==> own@[j] == #[trigger] logits[start + j],
            }
        }),
{
    let rows = (m.in_flight->0).rows;
    let row = rows[i];
    let token = selection.tokens@[i];
    let start = i * vocabulary;
    let own = row_logits(logits, vocabulary, i);
    assert(row_choice(arithmetic, m.active[row.request_id.0], own, token));
    assert((i + 1) * vocabulary == start + vocabulary) by (nonlinear_arith)
        requires
            start == i * vocabulary,
    ;
    assert(0 <= start && start + vocabulary <= logits.len()) by (nonlinear_arith)
        requires
            start == i * vocabulary,
            0 <= i < rows.len(),
            logits.len() == rows.len() * vocabulary,
    ;
    assert forall|j: int| 0 <= j < vocabulary implies own[j] == #[trigger] logits[start + j] by {}
}

/// A request is accepted if and only if its prompt is not empty and fits a batch, its whole sequence
/// fits the cache, its tokens are none of them negative, and, where it asks for any token, the pages
/// of the pool have room for all that it reads, or for its prompt where whole sequences are not
/// reserved, and the queue is not full. The last token that it generates is never read.
pub proof fn law_requests_that_fit_are_accepted(
    m: SchedulerModel,
    prompt: Seq<i32>,
    max_new_tokens: usize,
    eos: Seq<i32>,
    sampler: Option<SamplerModel>,
    result: Result<RequestId, ContinuousBatchError>,
    after: SchedulerModel,
)
    requires
        m.inv(),
        prompt.len() <= usize::MAX,
        submitted(m, prompt, max_new_tokens, eos, sampler, result, after),
    ensures
        result is Ok <==> {
            let whole = prompt.len() + max_new_tokens;
            let read = if m.options.kv_admission is ReserveSequenceCapacity {
                whole - 1
            } else {
                prompt.len() as int
            };
            &&& 0 < prompt.len() <= m.config.max_batch_tokens
            &&& whole <= m.kv.config.max_sequence_length
            &&& forall|i: int| 0 <= i < prompt.len() ==> #[trigger] prompt[i] >= 0
            &&& forall|i: int| 0 <= i < eos.len() ==> #[trigger] eos[i] >= 0
            &&& max_new_tokens > 0 ==> read <= m.kv.config.num_pages * m.kv.config.block_size
            &&& max_new_tokens > 0 ==> (m.options.max_pending_requests matches Some(limit)
                ==> m.pending.len() < limit)
            &&& m.next_request < u64::MAX
        },
        result is Err ==> after == m,
{
    let block = m.kv.config.block_size as int;
    let pages = m.kv.config.num_pages as int;
    let whole = prompt.len() + max_new_tokens;
    lemma_fits(prompt.len() as int, block, pages);
    lemma_fits(whole - 1, block, pages);
}

/// Tokens need no more than some pages if and only if the pages have room for them.
proof fn lemma_fits(tokens: int, block: int, pages: int)
    requires
        block > 0,
    ensures
        pages_for(tokens, block) <= pages <==> tokens <= pages * block,
{
    lemma_pages(tokens, block);
    let n = pages_for(tokens, block);
    if n <= pages {
        assert(n * block <= pages * block) by (nonlinear_arith)
            requires
                n <= pages,
                block > 0,
        ;
    } else {
        assert(pages * block <= (n - 1) * block) by (nonlinear_arith)
            requires
                pages <= n - 1,
                block > 0,
        ;
    }
}

} // verus!
