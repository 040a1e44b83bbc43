//! The choice of prompts that are processed together.

use crate::continuous_batch::batch::{ContinuousBatchError, ScheduledBatch, ScheduledBatchKind};
use crate::continuous_batch::model::{
    ascending_ids, lemma_listing, lists, RequestPhase, SchedulerModel,
};
use crate::continuous_batch::scheduling::{can_launch, lemma_entry_request, reports};
use crate::continuous_batch::soundness::batchable;
use crate::continuous_batch::ContinuousBatchScheduler;
use crate::ordered::{has_key, key_index};
use crate::paged_kv::RequestId;
use vstd::prelude::*;

verus! {

/// Requests whose prompts have the same length.
struct Bucket {
    length: usize,
    ids: Vec<u64>,
}

/// Entry `x` is a request whose prompt could be processed now.
spec fn ready(s: &ContinuousBatchScheduler, x: int) -> bool {
    s@.prefill_ready(s.active.entries@[x].0, s.active.entries@[x].1@)
}

/// One of the first `n` entries is request `k`, ready, with a prompt of `length` tokens.
spec fn ready_among(s: &ContinuousBatchScheduler, n: int, length: nat, k: u64) -> bool {
    exists|x: int|
        0 <= x < n && (#[trigger] s.active.entries@[x]).0 == k && ready(s, x)
            && s.active.entries@[x].1@.prompt.len() == length
}

/// A bucket holds, oldest first, exactly the ready requests of its length among the first `n`
/// entries.
spec fn bucket_holds(s: &ContinuousBatchScheduler, n: int, bucket: Bucket) -> bool {
    &&& bucket.ids@.len() > 0
    &&& bucket.length > 0
    &&& ascending_ids(bucket.ids@)
    &&& forall|k: u64| #[trigger]
        bucket.ids@.contains(k) <==> ready_among(s, n, bucket.length as nat, k)
}

/// Every ready request among the first `n` entries has a bucket.
spec fn buckets_cover(s: &ContinuousBatchScheduler, n: int, buckets: Seq<Bucket>) -> bool {
    forall|x: int|
        0 <= x < n && ready(s, x) ==> has_bucket(
            buckets,
            (#[trigger] s.active.entries@[x]).1@.prompt.len(),
        )
}

spec fn has_bucket(buckets: Seq<Bucket>, length: nat) -> bool {
    exists|b: int| 0 <= b < buckets.len() && (#[trigger] buckets[b]).length == length
}

/// Lengths occur once.
spec fn distinct_lengths(buckets: Seq<Bucket>) -> bool {
    forall|a: int, b: int|
        0 <= a < b < buckets.len() ==> (#[trigger] buckets[a]).length != (
        #[trigger] buckets[b]).length
}

/// A bucket over all entries is the bucket of the model.
proof fn lemma_bucket(s: &ContinuousBatchScheduler, bucket: Bucket)
    requires
        s.wf(),
        bucket_holds(s, s.active.entries@.len() as int, bucket),
    ensures
        s@.bucket(bucket.length as nat) == bucket.ids@,
        lists(s@.active, s@.ready_of_length(bucket.length as nat), bucket.ids@),
        batchable(s@, ScheduledBatchKind::Prefill, bucket.ids@),
{
    let m = s@;
    let length = bucket.length as nat;
    let entries = s.active.entries@;
    let p = m.ready_of_length(length);
    assert forall|k: u64| #[trigger] bucket.ids@.contains(k) <==> m.active.contains_key(k) && p(
        k,
        m.active[k],
    ) by {
        if bucket.ids@.contains(k) {
            let x = choose|x: int|
                0 <= x < entries.len() && (#[trigger] entries[x]).0 == k && ready(s, x)
                    && entries[x].1@.prompt.len() == length;
            lemma_entry_request(s, x);
        }
        if m.active.contains_key(k) && p(k, m.active[k]) {
            let x = key_index(entries, k);
            assert(has_key(entries, k));
            assert(entries[x].0 == k);
            lemma_entry_request(s, x);
            assert(ready(s, x));
            assert(ready_among(s, entries.len() as int, length, k));
        }
    }
    assert(lists(m.active, p, bucket.ids@));
    lemma_listing(m.active, p, bucket.ids@);
    assert forall|j: int| 0 <= j < bucket.ids@.len() implies m.active.contains_key(
        #[trigger] bucket.ids@[j],
    ) && m.active[bucket.ids@[j]].phase is NeedsPrefill by {
        assert(bucket.ids@.contains(bucket.ids@[j]));
    }
    assert(bucket.ids@.no_duplicates());
}

/// A length without a bucket has no ready request.
proof fn lemma_no_bucket(s: &ContinuousBatchScheduler, buckets: Seq<Bucket>, length: nat)
    requires
        s.wf(),
        buckets_cover(s, s.active.entries@.len() as int, buckets),
        !has_bucket(buckets, length),
    ensures
        s@.bucket(length).len() == 0,
{
    let m = s@;
    let entries = s.active.entries@;
    let p = m.ready_of_length(length);
    let none = Seq::<u64>::empty();
    assert forall|k: u64| #[trigger] none.contains(k) <==> m.active.contains_key(k) && p(
        k,
        m.active[k],
    ) by {
        if m.active.contains_key(k) && p(k, m.active[k]) {
            let x = key_index(entries, k);
            assert(has_key(entries, k));
            assert(entries[x].0 == k);
            lemma_entry_request(s, x);
            assert(ready(s, x));
            assert(has_bucket(buckets, entries[x].1@.prompt.len()));
        }
    }
    assert(lists(m.active, p, none));
    lemma_listing(m.active, p, none);
}

/// Only one length is best.
proof fn lemma_best_unique(m: SchedulerModel, a: nat, b: nat)
    requires
        m.best_length(a),
        m.best_length(b),
        lists(m.active, m.ready_of_length(a), m.bucket(a)),
        lists(m.active, m.ready_of_length(b), m.bucket(b)),
    ensures
        a == b,
{
    let first = m.bucket(a)[0];
    assert(m.bucket(b)[0] == first);
    assert(m.bucket(a).contains(first));
    assert(m.bucket(b).contains(first));
    assert(m.ready_of_length(a)(first, m.active[first]));
    assert(m.ready_of_length(b)(first, m.active[first]));
}

impl ContinuousBatchScheduler {
    /// Sort the requests whose prompts could be processed now by prompt length.
    fn prefill_buckets(&self) -> (buckets: Vec<Bucket>)
        requires
            self.wf(),
        ensures
            forall|b: int|
                #![trigger buckets@[b]]
                0 <= b < buckets@.len() ==> bucket_holds(
                    self,
                    self.active.entries@.len() as int,
                    buckets@[b],
                ),
            distinct_lengths(buckets@),
            buckets_cover(self, self.active.entries@.len() as int, buckets@),
    {
        let ghost entries = self.active.entries@;
        let mut buckets: Vec<Bucket> = Vec::new();
        let mut i: usize = 0;
        while i < self.active.entries.len()
            invariant
                self.wf(),
                entries == self.active.entries@,
                i <= entries.len(),
                forall|b: int|
                    #![trigger buckets@[b]]
                    0 <= b < buckets@.len() ==> bucket_holds(self, i as int, buckets@[b]),
                distinct_lengths(buckets@),
                buckets_cover(self, i as int, buckets@),
            decreases entries.len() - i,
        {
            let id: u64 = self.active.entries[i].0;
            let length: usize = self.active.entries[i].1.prompt_token_ids.len();
            let waiting = match self.active.entries[i].1.phase {
                RequestPhase::NeedsPrefill => true,
                _ => false,
            };
            proof {
                lemma_entry_request(self, i as int);
                assert(self@.active_sound(id));
                assert(self@.kv.sequences.contains_key(id));
            }
            let fits = waiting && match self.kv_cache.can_append(RequestId(id), length) {
                Ok(fits) => fits,
                Err(_) => false,
            };
            assert(fits == ready(self, i as int));
            let ghost before = buckets@;
            if fits {
                let mut b: usize = 0;
                while b < buckets.len() && buckets[b].length != length
                    invariant
                        b <= buckets@.len(),
                        buckets@ == before,
                        forall|a: int| 0 <= a < b ==> (#[trigger] before[a]).length != length,
                    decreases buckets@.len() - b,
                {
                    b += 1;
                }
                if b < buckets.len() {
                    buckets[b].ids.push(id);
                    proof {
                        lemma_bucket_grows(self, i as int, before[b as int], buckets@[b as int]);
                        self.lemma_buckets_step(i as int, before, buckets@, b as int);
                    }
                } else {
                    let mut ids: Vec<u64> = Vec::new();
                    ids.push(id);
                    buckets.push(Bucket { length, ids });
                    proof {
                        assert(ids@ =~= seq![id]);
                        assert(!has_bucket(before, length as nat));
                        lemma_bucket_starts(self, i as int, before, buckets@[b as int]);
                        self.lemma_buckets_step(i as int, before, buckets@, b as int);
                    }
                }
            } else {
                proof {
                    assert forall|a: int|
                        #![trigger buckets@[a]]
                        0 <= a < buckets@.len() implies bucket_holds(
                        self,
                        i + 1,
                        buckets@[a],
                    ) by {
                        lemma_bucket_waits(self, i as int, buckets@[a]);
                    }
                }
            }
            i += 1;
        }
        buckets
    }

    /// The buckets after one more ready request was sorted into bucket `at`.
    proof fn lemma_buckets_step(&self, i: int, before: Seq<Bucket>, after: Seq<Bucket>, at: int)
        requires
            self.wf(),
            0 <= i < self.active.entries@.len(),
            ready(self, i),
            0 <= at < after.len(),
            at <= before.len(),
            after.len() == if at < before.len() {
                before.len()
            } else {
                before.len() + 1
            },
            forall|a: int| 0 <= a < before.len() && a != at ==> after[a] == #[trigger] before[a],
            at < before.len() ==> before[at].length == after[at].length,
            after[at].length == self.active.entries@[i].1@.prompt.len(),
            forall|a: int| 0 <= a < before.len() && a != at ==> (#[trigger] before[a]).length
                != after[at].length,
            bucket_holds(self, i + 1, after[at]),
            forall|b: int|
                #![trigger before[b]]
                0 <= b < before.len() ==> bucket_holds(self, i, before[b]),
            distinct_lengths(before),
            buckets_cover(self, i, before),
        ensures
            forall|b: int|
                #![trigger after[b]]
                0 <= b < after.len() ==> bucket_holds(self, i + 1, after[b]),
            distinct_lengths(after),
            buckets_cover(self, i + 1, after),
    {
        assert forall|b: int|
            #![trigger after[b]]
            0 <= b < after.len() implies bucket_holds(self, i + 1, after[b]) by {
            if b != at {
                assert(after[b] == before[b]);
                lemma_bucket_other(self, i, before[b]);
            }
        }
        assert forall|a: int, b: int| 0 <= a < b < after.len() implies (#[trigger] after[a]).length
            != (#[trigger] after[b]).length by {
            if a != at {
                assert(after[a] == before[a]);
            }
            if b != at {
                assert(after[b] == before[b]);
            }
        }
        assert forall|x: int| 0 <= x < i + 1 && ready(self, x) implies has_bucket(
            after,
            (#[trigger] self.active.entries@[x]).1@.prompt.len(),
        ) by {
            let length = self.active.entries@[x].1@.prompt.len();
            if x < i {
                assert(has_bucket(before, length));
                let b = choose|b: int|
                    0 <= b < before.len() && (#[trigger] before[b]).length == length;
                if b == at {
                    assert(after[at].length == length);
                } else {
                    assert(after[b] == before[b]);
                }
            } else {
                assert(after[at].length == length);
            }
        }
    }
}

/// A bucket of another length does not change by one more ready request.
proof fn lemma_bucket_other(s: &ContinuousBatchScheduler, i: int, bucket: Bucket)
    requires
        0 <= i < s.active.entries@.len(),
        bucket_holds(s, i, bucket),
        s.active.entries@[i].1@.prompt.len() != bucket.length,
    ensures
        bucket_holds(s, i + 1, bucket),
{
    let entries = s.active.entries@;
    assert forall|k: u64| #[trigger] bucket.ids@.contains(k) <==> ready_among(
        s,
        i + 1,
        bucket.length as nat,
        k,
    ) by {
        if bucket.ids@.contains(k) {
            let x = choose|x: int|
                0 <= x < i && (#[trigger] entries[x]).0 == k && ready(s, x)
                    && entries[x].1@.prompt.len() == bucket.length;
            assert(entries[x].0 == k);
        }
        if ready_among(s, i + 1, bucket.length as nat, k) {
            let x = choose|x: int|
                0 <= x < i + 1 && (#[trigger] entries[x]).0 == k && ready(s, x)
                    && entries[x].1@.prompt.len() == bucket.length;
            assert(x < i);
            assert(ready_among(s, i, bucket.length as nat, k));
        }
    }
}

/// A bucket does not change by a request that is not ready.
proof fn lemma_bucket_waits(s: &ContinuousBatchScheduler, i: int, bucket: Bucket)
    requires
        0 <= i < s.active.entries@.len(),
        bucket_holds(s, i, bucket),
        !ready(s, i),
    ensures
        bucket_holds(s, i + 1, bucket),
{
    let entries = s.active.entries@;
    assert forall|k: u64| #[trigger] bucket.ids@.contains(k) <==> ready_among(
        s,
        i + 1,
        bucket.length as nat,
        k,
    ) by {
        if bucket.ids@.contains(k) {
            let x = choose|x: int|
                0 <= x < i && (#[trigger] entries[x]).0 == k && ready(s, x)
                    && entries[x].1@.prompt.len() == bucket.length;
            assert(entries[x].0 == k);
        }
        if ready_among(s, i + 1, bucket.length as nat, k) {
            let x = choose|x: int|
                0 <= x < i + 1 && (#[trigger] entries[x]).0 == k && ready(s, x)
                    && entries[x].1@.prompt.len() == bucket.length;
            assert(x < i);
            assert(ready_among(s, i, bucket.length as nat, k));
        }
    }
}

/// A bucket with one more ready request at its end.
proof fn lemma_bucket_grows(s: &ContinuousBatchScheduler, i: int, before: Bucket, after: Bucket)
    requires
        s.wf(),
        0 <= i < s.active.entries@.len(),
        bucket_holds(s, i, before),
        ready(s, i),
        s.active.entries@[i].1@.prompt.len() == before.length,
        after.length == before.length,
        after.ids@ == before.ids@.push(s.active.entries@[i].0),
    ensures
        bucket_holds(s, i + 1, after),
{
    let entries = s.active.entries@;
    let id = entries[i].0;
    assert forall|a: int, b: int| 0 <= a < b < after.ids@.len() implies after.ids@[a]
        < after.ids@[b] by {
        if b == before.ids@.len() {
            assert(before.ids@.contains(before.ids@[a]));
            let x = choose|x: int|
                0 <= x < i && (#[trigger] entries[x]).0 == before.ids@[a] && ready(s, x)
                    && entries[x].1@.prompt.len() == before.length;
            assert(entries[x].0 < entries[i].0);
        }
    }
    assert forall|k: u64| #[trigger] after.ids@.contains(k) <==> ready_among(
        s,
        i + 1,
        after.length as nat,
        k,
    ) by {
        if after.ids@.contains(k) {
            if k == id {
                assert(entries[i].0 == k);
            } else {
                let j = choose|j: int| 0 <= j < after.ids@.len() && after.ids@[j] == k;
                assert(before.ids@[j] == k);
                assert(before.ids@.contains(k));
                let x = choose|x: int|
                    0 <= x < i && (#[trigger] entries[x]).0 == k && ready(s, x)
                        && entries[x].1@.prompt.len() == before.length;
                assert(entries[x].0 == k);
            }
        }
        if ready_among(s, i + 1, after.length as nat, k) {
            let x = choose|x: int|
                0 <= x < i + 1 && (#[trigger] entries[x]).0 == k && ready(s, x)
                    && entries[x].1@.prompt.len() == after.length;
            if x < i {
                assert(ready_among(s, i, before.length as nat, k));
                assert(before.ids@.contains(k));
                let j = choose|j: int| 0 <= j < before.ids@.len() && before.ids@[j] == k;
                assert(after.ids@[j] == k);
            } else {
                assert(after.ids@[after.ids@.len() - 1] == k);
            }
        }
    }
}

/// A bucket for the first ready request of its length.
proof fn lemma_bucket_starts(
    s: &ContinuousBatchScheduler,
    i: int,
    buckets: Seq<Bucket>,
    bucket: Bucket,
)
    requires
        s.wf(),
        0 <= i < s.active.entries@.len(),
        ready(s, i),
        buckets_cover(s, i, buckets),
        !has_bucket(buckets, bucket.length as nat),
        s.active.entries@[i].1@.prompt.len() == bucket.length,
        bucket.ids@ == seq![s.active.entries@[i].0],
        bucket.length > 0,
    ensures
        bucket_holds(s, i + 1, bucket),
{
    let entries = s.active.entries@;
    assert forall|k: u64| #[trigger] bucket.ids@.contains(k) <==> ready_among(
        s,
        i + 1,
        bucket.length as nat,
        k,
    ) by {
        if bucket.ids@.contains(k) {
            assert(entries[i].0 == k);
        }
        if ready_among(s, i + 1, bucket.length as nat, k) {
            let x = choose|x: int|
                0 <= x < i + 1 && (#[trigger] entries[x]).0 == k && ready(s, x)
                    && entries[x].1@.prompt.len() == bucket.length;
            if x < i {
                assert(has_bucket(buckets, entries[x].1@.prompt.len()));
            }
            assert(bucket.ids@[0] == k);
        }
    }
}

/// The tokens that a batch of `rows` prompts of `length` tokens would process.
fn useful_tokens(rows: usize, length: usize, max_batch_tokens: usize) -> (tokens: usize)
    requires
        length > 0,
    ensures
        tokens == (if (rows as int) < max_batch_tokens as int / length as int {
            rows * length
        } else {
            (max_batch_tokens as int / length as int) * length
        }),
{
    let most: usize = max_batch_tokens / length;
    proof {
        let m = max_batch_tokens as int;
        let l = length as int;
        vstd::arithmetic::div_mod::lemma_fundamental_div_mod(m, l);
        vstd::arithmetic::div_mod::lemma_mod_bound(m, l);
        assert((m / l) * l <= m) by (nonlinear_arith)
            requires
                m == l * (m / l) + m % l,
                m % l >= 0,
        ;
        if (rows as int) < m / l {
            assert(rows * l <= (m / l) * l) by (nonlinear_arith)
                requires
                    rows as int <= m / l,
                    l > 0,
            ;
        }
    }
    if rows < most {
        rows * length
    } else {
        most * length
    }
}

impl ContinuousBatchScheduler {
    /// Batch the prompts whose length fills the batch best.
    pub fn schedule_prefill(&mut self) -> (result: Result<
        Option<ScheduledBatch>,
        ContinuousBatchError,
    >)
        requires
            old(self).wf(),
            old(self)@.in_flight is None,
            old(self)@.next_batch < u64::MAX,
        ensures
            final(self).active.wf(),
            final(self).kv_cache.wf(),
            reports(old(self)@.prefill_attempt(), result, final(self)@),
            can_launch(result, *final(self)),
    {
        let buckets = self.prefill_buckets();
        let ghost m = self@;
        let ghost count = self.active.entries@.len() as int;
        if buckets.len() == 0 {
            proof {
                assert forall|n: nat| !m.best_length(n) by {
                    lemma_no_bucket(self, buckets@, n);
                }
            }
            return Ok(None);
        }
        let max_batch_tokens: usize = self.config.max_batch_tokens;
        let mut best: usize = 0;
        let mut best_tokens: usize = useful_tokens(
            buckets[0].ids.len(),
            buckets[0].length,
            max_batch_tokens,
        );
        proof {
            lemma_bucket(self, buckets@[0]);
        }
        let mut i: usize = 1;
        while i < buckets.len()
            invariant
                self.wf(),
                m == self@,
                count == self.active.entries@.len(),
                max_batch_tokens == m.config.max_batch_tokens,
                1 <= i <= buckets@.len(),
                best < i,
                forall|b: int|
                    #![trigger buckets@[b]]
                    0 <= b < buckets@.len() ==> bucket_holds(self, count, buckets@[b]),
                best_tokens == m.useful_tokens(buckets@[best as int].length as nat),
                forall|b: int|
                    #![trigger buckets@[b]]
                    0 <= b < i ==> m.useful_tokens(buckets@[b].length as nat) < best_tokens || (
                    m.useful_tokens(buckets@[b].length as nat) == best_tokens
                        && buckets@[best as int].ids@[0] <= buckets@[b].ids@[0]),
            decreases buckets@.len() - i,
        {
            proof {
                lemma_bucket(self, buckets@[i as int]);
            }
            let tokens: usize = useful_tokens(
                buckets[i].ids.len(),
                buckets[i].length,
                max_batch_tokens,
            );
            // For equally full batches, keep the oldest request first.
            if tokens > best_tokens || (tokens == best_tokens && buckets[i].ids[0]
                < buckets[best].ids[0]) {
                best = i;
                best_tokens = tokens;
            }
            i += 1;
        }
        let length: usize = buckets[best].length;
        proof {
            let n = length as nat;
            let chosen = buckets@[best as int];
            lemma_bucket(self, chosen);
            assert(m.best_length(n)) by {
                assert forall|o: nat| (#[trigger] m.bucket(o)).len() > 0 implies m.useful_tokens(o)
                    < m.useful_tokens(n) || (m.useful_tokens(o) == m.useful_tokens(n) && m.bucket(
                    n,
                )[0] <= m.bucket(o)[0]) by {
                    if has_bucket(buckets@, o) {
                        let b = choose|b: int|
                            0 <= b < buckets@.len() && (#[trigger] buckets@[b]).length == o;
                        lemma_bucket(self, buckets@[b]);
                    } else {
                        lemma_no_bucket(self, buckets@, o);
                    }
                }
            }
            let picked = choose|o: nat| m.best_length(o);
            assert(m.best_length(picked));
            if !has_bucket(buckets@, picked) {
                lemma_no_bucket(self, buckets@, picked);
            }
            let b = choose|b: int|
                0 <= b < buckets@.len() && (#[trigger] buckets@[b]).length == picked;
            lemma_bucket(self, buckets@[b]);
            lemma_best_unique(m, n, picked);
        }
        let limit: usize = max_batch_tokens / length;
        self.attempt(ScheduledBatchKind::Prefill, &buckets[best].ids, limit)
    }
}

} // verus!
