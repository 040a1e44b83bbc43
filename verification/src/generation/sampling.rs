//! Temperature, top-k and nucleus sampling.
//!
//! Which tokens stay in the running, in what order, and which one a draw picks is decided here,
//! on the bit patterns of the numbers. Exponentials, sums and quotients of single numbers come from
//! a [`SamplingArithmetic`].

pub mod exactness;
pub mod share_laws;
pub mod shares;

use crate::generation::sampling::shares::{
    law_some_token_can_be_drawn, probabilities, shares_of,
};
use crate::generation::GenerationError;
use crate::logits::{
    first_maximum, is_less_64, is_nan_32, less_64, maximum_index, nan_32, nan_64, order_32,
    order_64, rank_32, INFINITY_32, INFINITY_64, NEG_INFINITY_32, ONE_64,
};
use crate::rng::{
    after_draw, chacha12_seeded, copy_rng, draw_numerator, entropy_rng, rng_state, seeded_rng,
    uniform_numerator,
};
use crate::text::text;
use chacha20::ChaCha12Rng;
use vstd::prelude::*;

verus! {

/// Temperature, top-k, then nucleus filtering for categorical token sampling.
#[derive(Debug, Clone, Copy, PartialEq, Eq, Structural)]
pub struct SamplingConfig {
    /// Bits of a binary64 number, finite and strictly positive. Use the greedy API for
    /// deterministic argmax.
    pub temperature: u64,
    /// Zero disables top-k. Tokens tied at the kth logit are retained.
    pub top_k: usize,
    /// Bits of a binary64 number: probability mass to retain, in (0, 1]. One disables nucleus
    /// filtering.
    pub top_p: u64,
    /// Request-local random seed; None initializes from system entropy.
    pub seed: Option<u64>,
}

impl Default for SamplingConfig {
    fn default() -> (config: Self)
        ensures
            config.temperature == ONE_64,
            config.top_k == 0,
            config.top_p == ONE_64,
            config.seed is None,
    {
        SamplingConfig { temperature: ONE_64, top_k: 0, top_p: ONE_64, seed: None }
    }
}

/// Why sampling options are refused.
pub open spec fn config_error(config: SamplingConfig) -> Option<Seq<char>> {
    if !(0 < config.temperature < INFINITY_64) {
        Some("sampling temperature must be finite and positive"@)
    } else if !(0 < config.top_p <= ONE_64) {
        Some("sampling top_p must be in (0, 1]"@)
    } else {
        None
    }
}

impl SamplingConfig {
    pub fn validate(&self) -> (result: Result<(), GenerationError>)
        ensures
            match (result, config_error(*self)) {
                (Ok(_), None) => true,
                (Err(error), Some(message)) => error.0@ == message,
                _ => false,
            },
    {
        if self.temperature == 0 || self.temperature >= INFINITY_64 {
            return Err(GenerationError(text("sampling temperature must be finite and positive")));
        }
        if self.top_p == 0 || self.top_p > ONE_64 {
            return Err(GenerationError(text("sampling top_p must be in (0, 1]")));
        }
        Ok(())
    }
}

#[derive(Debug, Clone, PartialEq, Eq)]
pub struct SamplingGenerationConfig {
    pub max_new_tokens: usize,
    pub eos_token_ids: Vec<i32>,
    pub sampling: SamplingConfig,
}

impl Default for SamplingGenerationConfig {
    fn default() -> (config: Self)
        ensures
            config.max_new_tokens == 32,
            config.eos_token_ids@.len() == 0,
            config.sampling == (SamplingConfig {
                temperature: ONE_64,
                top_k: 0,
                top_p: ONE_64,
                seed: None,
            }),
    {
        SamplingGenerationConfig {
            max_new_tokens: 32,
            eos_token_ids: Vec::new(),
            sampling: SamplingConfig::default(),
        }
    }
}

/// Which tokens a row of logits leaves in the running, before any probability is computed.
#[derive(Debug)]
pub struct FilterPlan {
    /// A token of greatest logit.
    pub maximum: usize,
    /// Bits of the least logit that top-k retains; negative infinity without top-k.
    pub threshold: u32,
    /// With nucleus filtering the retained tokens from the least logit to the greatest, ties in
    /// token order; empty without.
    pub order: Vec<usize>,
}

/// The number of logits above `threshold`.
pub open spec fn count_above(logits: Seq<u32>, threshold: u32) -> nat
    decreases logits.len(),
{
    if logits.len() == 0 {
        0
    } else {
        count_above(logits.drop_last(), threshold) + if order_32(logits.last()) > order_32(
            threshold,
        ) {
            1nat
        } else {
            0nat
        }
    }
}

/// The number of logits not below `threshold`.
pub open spec fn count_retained(logits: Seq<u32>, threshold: u32) -> nat
    decreases logits.len(),
{
    if logits.len() == 0 {
        0
    } else {
        count_retained(logits.drop_last(), threshold) + if order_32(logits.last()) >= order_32(
            threshold,
        ) {
            1nat
        } else {
            0nat
        }
    }
}

/// `threshold` is the `k`-th greatest logit, equal logits counted one by one.
pub open spec fn kth_greatest(logits: Seq<u32>, k: int, threshold: u32) -> bool {
    &&& logits.contains(threshold)
    &&& count_above(logits, threshold) < k <= count_retained(logits, threshold)
}

/// Token `i` is not below the top-k threshold.
pub open spec fn retained(logits: Seq<u32>, threshold: u32, i: int) -> bool {
    0 <= i < logits.len() && order_32(logits[i]) >= order_32(threshold)
}

/// Token `a` comes before token `b` in ascending order of logits, ties in token order.
pub open spec fn before_in_order(logits: Seq<u32>, a: usize, b: usize) -> bool {
    order_32(logits[a as int]) < order_32(logits[b as int]) || (order_32(logits[a as int])
        == order_32(logits[b as int]) && a < b)
}

/// `order` lists exactly the retained tokens, ascending.
pub open spec fn ascending_order(logits: Seq<u32>, threshold: u32, order: Seq<usize>) -> bool {
    &&& forall|i: int, j: int|
        0 <= i < j < order.len() ==> before_in_order(logits, #[trigger] order[i], #[trigger] order[j])
    &&& forall|i: int| 0 <= i < order.len() ==> retained(logits, threshold, #[trigger] order[i] as int)
    &&& forall|t: usize| retained(logits, threshold, t as int) ==> #[trigger] order.contains(t)
}

/// Whether top-k removes anything from a row.
pub open spec fn top_k_active(config: SamplingConfig, logits: Seq<u32>) -> bool {
    0 < config.top_k < logits.len()
}

/// The plan is the one that the options prescribe for a row.
pub open spec fn plan_for(config: SamplingConfig, logits: Seq<u32>, plan: FilterPlan) -> bool {
    &&& first_maximum(logits, plan.maximum as int)
    &&& if top_k_active(config, logits) {
        kth_greatest(logits, config.top_k as int, plan.threshold)
    } else {
        plan.threshold == NEG_INFINITY_32
    }
    &&& if config.top_p < ONE_64 {
        ascending_order(logits, plan.threshold, plan.order@)
    } else {
        plan.order@.len() == 0
    }
}

/// Some logit is NaN or positive infinity.
pub open spec fn unordered_logit(logits: Seq<u32>) -> bool {
    exists|i: int| 0 <= i < logits.len() && unusable(#[trigger] logits[i])
}

/// A logit that sampling refuses.
pub open spec fn unusable(bits: u32) -> bool {
    nan_32(bits) || bits == INFINITY_32
}

/// Every logit is negative infinity.
pub open spec fn all_masked(logits: Seq<u32>) -> bool {
    forall|i: int| 0 <= i < logits.len() ==> #[trigger] logits[i] == NEG_INFINITY_32
}

/// Why a row cannot be sampled from.
pub open spec fn fill_error(config: SamplingConfig, logits: Seq<u32>) -> Option<Seq<char>> {
    if config_error(config) is Some {
        config_error(config)
    } else if logits.len() == 0 || logits.len() - 1 > i32::MAX {
        Some("sampling requires a nonempty i32-indexed vocabulary"@)
    } else if unordered_logit(logits) {
        Some("sampling logits contain NaN or positive infinity"@)
    } else if all_masked(logits) {
        Some("all sampling logits are masked"@)
    } else {
        None
    }
}

/// Pairs are in lexicographic order.
pub open spec fn pair_order(a: (i64, usize), b: (i64, usize)) -> bool {
    a.0 < b.0 || (a.0 == b.0 && a.1 <= b.1)
}

/// Calls `select_nth_unstable` of std on a slice of pairs: the pair at `rank` is the one that would
/// stand there in sorted order, no pair before it is greater and none after it is less. Pairs
/// compare lexicographically.
#[verifier::external_body]
fn select_rank(pairs: &mut Vec<(i64, usize)>, rank: usize)
    requires
        rank < old(pairs)@.len(),
    ensures
        final(pairs)@.to_multiset() == old(pairs)@.to_multiset(),
        forall|i: int|
            0 <= i < rank ==> pair_order(#[trigger] final(pairs)@[i], final(pairs)@[rank as int]),
        forall|i: int|
            rank < i < final(pairs)@.len() ==> pair_order(
                final(pairs)@[rank as int],
                #[trigger] final(pairs)@[i],
            ),
{
    pairs.select_nth_unstable(rank);
}

/// Calls `sort_unstable` of std on a slice of pairs, which compare lexicographically.
#[verifier::external_body]
fn sort_pairs(pairs: &mut Vec<(i64, usize)>)
    ensures
        final(pairs)@.to_multiset() == old(pairs)@.to_multiset(),
        forall|i: int, j: int|
            0 <= i < j < final(pairs)@.len() ==> pair_order(
                #[trigger] final(pairs)@[i],
                #[trigger] final(pairs)@[j],
            ),
{
    pairs.sort_unstable();
}

/// The number of pairs that satisfy `p`.
spec fn count_pairs(pairs: Seq<(i64, usize)>, p: spec_fn((i64, usize)) -> bool) -> nat
    decreases pairs.len(),
{
    if pairs.len() == 0 {
        0
    } else {
        count_pairs(pairs.drop_last(), p) + if p(pairs.last()) {
            1nat
        } else {
            0nat
        }
    }
}

proof fn lemma_count_remove(pairs: Seq<(i64, usize)>, p: spec_fn((i64, usize)) -> bool, j: int)
    requires
        0 <= j < pairs.len(),
    ensures
        count_pairs(pairs, p) == count_pairs(pairs.remove(j), p) + if p(pairs[j]) {
            1nat
        } else {
            0nat
        },
    decreases pairs.len(),
{
    if j == pairs.len() - 1 {
        assert(pairs.remove(j) =~= pairs.drop_last());
    } else {
        lemma_count_remove(pairs.drop_last(), p, j);
        assert(pairs.remove(j).drop_last() =~= pairs.drop_last().remove(j));
        assert(pairs.remove(j).last() == pairs.last());
    }
}

proof fn lemma_count_permuted(
    left: Seq<(i64, usize)>,
    right: Seq<(i64, usize)>,
    p: spec_fn((i64, usize)) -> bool,
)
    requires
        left.to_multiset() == right.to_multiset(),
    ensures
        count_pairs(left, p) == count_pairs(right, p),
    decreases left.len(),
{
    left.to_multiset_ensures();
    right.to_multiset_ensures();
    assert(left.len() == right.len());
    if left.len() > 0 {
        let last = left.last();
        assert(left.contains(last));
        assert(left.to_multiset().count(last) > 0);
        assert(right.contains(last));
        let j = choose|j: int| 0 <= j < right.len() && right[j] == last;
        assert(left.remove(left.len() - 1) =~= left.drop_last());
        lemma_count_permuted(left.drop_last(), right.remove(j), p);
        lemma_count_remove(right, p, j);
    }
}

/// Where the first `n` pairs fail, at most the others count.
proof fn lemma_count_upper(pairs: Seq<(i64, usize)>, p: spec_fn((i64, usize)) -> bool, n: int)
    requires
        0 <= n <= pairs.len(),
        forall|i: int| 0 <= i < n ==> !p(#[trigger] pairs[i]),
    ensures
        count_pairs(pairs, p) <= pairs.len() - n,
    decreases pairs.len(),
{
    if pairs.len() > 0 {
        if n == pairs.len() {
            assert(!p(pairs[pairs.len() - 1]));
            lemma_count_upper(pairs.drop_last(), p, n - 1);
        } else {
            lemma_count_upper(pairs.drop_last(), p, n);
        }
    }
}

/// Where all pairs from `n` on succeed, at least those count.
proof fn lemma_count_lower(pairs: Seq<(i64, usize)>, p: spec_fn((i64, usize)) -> bool, n: int)
    requires
        0 <= n <= pairs.len(),
        forall|i: int| n <= i < pairs.len() ==> p(#[trigger] pairs[i]),
    ensures
        count_pairs(pairs, p) >= pairs.len() - n,
    decreases pairs.len(),
{
    if n < pairs.len() {
        assert(p(pairs[pairs.len() - 1]));
        lemma_count_lower(pairs.drop_last(), p, n);
    }
}

/// The pairs of rank and token for a row of logits.
spec fn ranked_pairs(logits: Seq<u32>) -> Seq<(i64, usize)> {
    Seq::new(logits.len(), |i: int| (order_32(logits[i]) as i64, i as usize))
}

proof fn lemma_ranked_counts(logits: Seq<u32>, threshold: u32)
    ensures
        count_above(logits, threshold) == count_pairs(
            ranked_pairs(logits),
            |q: (i64, usize)| q.0 > order_32(threshold),
        ),
        count_retained(logits, threshold) == count_pairs(
            ranked_pairs(logits),
            |q: (i64, usize)| q.0 >= order_32(threshold),
        ),
    decreases logits.len(),
{
    if logits.len() > 0 {
        lemma_ranked_counts(logits.drop_last(), threshold);
        assert(ranked_pairs(logits).drop_last() =~= ranked_pairs(logits.drop_last()));
    }
}

/// Request-local, reusable storage. It has no effect on the random stream.
#[derive(Debug)]
pub struct SamplingWorkspace {
    pub ranked: Vec<(i64, usize)>,
}

impl Default for SamplingWorkspace {
    fn default() -> (workspace: Self)
        ensures
            workspace.ranked@.len() == 0,
    {
        SamplingWorkspace { ranked: Vec::new() }
    }
}

impl SamplingWorkspace {
    /// Check a row of logits and decide which tokens the options leave in the running.
    pub fn fill(&mut self, logits: &[u32], config: SamplingConfig) -> (result: Result<
        FilterPlan,
        GenerationError,
    >)
        ensures
            match (result, fill_error(config, logits@)) {
                (Ok(plan), None) => plan_for(config, logits@, plan),
                (Err(error), Some(message)) => error.0@ == message,
                _ => false,
            },
    {
        match config.validate() {
            Ok(_) => {},
            Err(error) => {
                return Err(error);
            },
        }
        if logits.len() == 0 || logits.len() - 1 > i32::MAX as usize {
            return Err(
                GenerationError(text("sampling requires a nonempty i32-indexed vocabulary")),
            );
        }
        let mut masked = true;
        let mut i: usize = 0;
        while i < logits.len()
            invariant
                i <= logits@.len(),
                config_error(config) is None,
                0 < logits@.len() <= i32::MAX + 1,
                forall|j: int| 0 <= j < i ==> !unusable(#[trigger] logits@[j]),
                masked <==> forall|j: int|
                    0 <= j < i ==> #[trigger] logits@[j] == NEG_INFINITY_32,
            decreases logits@.len() - i,
        {
            let bits: u32 = logits[i];
            if is_nan_32(bits) || bits == INFINITY_32 {
                assert(unusable(logits@[i as int]));
                return Err(
                    GenerationError(text("sampling logits contain NaN or positive infinity")),
                );
            }
            if bits != NEG_INFINITY_32 {
                masked = false;
                assert(logits@[i as int] != NEG_INFINITY_32);
            }
            i += 1;
        }
        assert(!unordered_logit(logits@));
        if masked {
            return Err(GenerationError(text("all sampling logits are masked")));
        }
        let maximum: usize = match maximum_index(logits) {
            Some(index) => index,
            None => {
                assert(!nan_32(logits@[0])) by {
                    assert(!unusable(logits@[0]));
                }
                0
            },
        };
        let top_k = config.top_k > 0 && config.top_k < logits.len();
        let threshold: u32 = if top_k {
            self.boundary(logits, config.top_k)
        } else {
            NEG_INFINITY_32
        };
        let order: Vec<usize> = if config.top_p < ONE_64 {
            self.retained_order(logits, threshold)
        } else {
            Vec::new()
        };
        Ok(FilterPlan { maximum, threshold, order })
    }

    /// The `k`-th greatest logit, found in linear time instead of by sorting the vocabulary.
    fn boundary(&mut self, logits: &[u32], k: usize) -> (threshold: u32)
        requires
            0 < k < logits@.len(),
        ensures
            kth_greatest(logits@, k as int, threshold),
    {
        self.ranked.clear();
        let mut i: usize = 0;
        while i < logits.len()
            invariant
                i <= logits@.len(),
                self.ranked@ == ranked_pairs(logits@.take(i as int)),
            decreases logits@.len() - i,
        {
            self.ranked.push((rank_32(logits[i]), i));
            i += 1;
            assert(self.ranked@ =~= ranked_pairs(logits@.take(i as int)));
        }
        assert(logits@.take(i as int) =~= logits@);
        let ghost before = self.ranked@;
        let rank: usize = logits.len() - k;
        select_rank(&mut self.ranked, rank);
        let ghost after = self.ranked@;
        proof {
            before.to_multiset_ensures();
            after.to_multiset_ensures();
            assert(after.contains(after[rank as int]));
            assert(after.to_multiset().count(after[rank as int]) > 0);
            assert(before.contains(after[rank as int]));
        }
        let token: usize = self.ranked[rank].1;
        let threshold: u32 = logits[token];
        proof {
            let above = |q: (i64, usize)| q.0 > order_32(threshold);
            let kept = |q: (i64, usize)| q.0 >= order_32(threshold);
            assert(after[rank as int].0 == order_32(threshold));
            assert forall|j: int| 0 <= j < rank + 1 implies !above(#[trigger] after[j]) by {
                if j < rank {
                    assert(pair_order(after[j], after[rank as int]));
                }
            }
            assert forall|j: int| rank <= j < after.len() implies kept(#[trigger] after[j]) by {
                if j > rank {
                    assert(pair_order(after[rank as int], after[j]));
                }
            }
            lemma_count_upper(after, above, rank + 1);
            lemma_count_lower(after, kept, rank as int);
            lemma_count_permuted(before, after, above);
            lemma_count_permuted(before, after, kept);
            lemma_ranked_counts(logits@, threshold);
            assert(logits@.contains(threshold)) by {
                assert(logits@[token as int] == threshold);
            }
        }
        threshold
    }

    /// The tokens that are not below the threshold, ascending.
    fn retained_order(&mut self, logits: &[u32], threshold: u32) -> (order: Vec<usize>)
        ensures
            ascending_order(logits@, threshold, order@),
    {
        let lowest: i64 = rank_32(threshold);
        self.ranked.clear();
        let mut i: usize = 0;
        while i < logits.len()
            invariant
                i <= logits@.len(),
                lowest == order_32(threshold),
                forall|j: int|
                    0 <= j < self.ranked@.len() ==> {
                        let q = #[trigger] self.ranked@[j];
                        q.1 < i && q.0 == order_32(logits@[q.1 as int]) && retained(
                            logits@,
                            threshold,
                            q.1 as int,
                        )
                    },
                forall|j: int, k: int|
                    0 <= j < k < self.ranked@.len() ==> self.ranked@[j].1 < self.ranked@[k].1,
                forall|t: int|
                    0 <= t < i && #[trigger] retained(logits@, threshold, t)
                        ==> self.ranked@.contains((order_32(logits@[t]) as i64, t as usize)),
            decreases logits@.len() - i,
        {
            let rank: i64 = rank_32(logits[i]);
            let ghost before = self.ranked@;
            if rank >= lowest {
                self.ranked.push((rank, i));
            }
            proof {
                let now = self.ranked@;
                assert forall|t: int|
                    0 <= t < i + 1 && #[trigger] retained(logits@, threshold, t) implies now.contains(
                    (order_32(logits@[t]) as i64, t as usize),
                ) by {
                    let q = (order_32(logits@[t]) as i64, t as usize);
                    if t < i {
                        assert(before.contains(q));
                        let j = choose|j: int| 0 <= j < before.len() && before[j] == q;
                        assert(now[j] == q);
                    } else {
                        assert(now[now.len() - 1] == q);
                    }
                }
            }
            i += 1;
        }
        let ghost listed = self.ranked@;
        sort_pairs(&mut self.ranked);
        let ghost sorted = self.ranked@;
        proof {
            listed.to_multiset_ensures();
            sorted.to_multiset_ensures();
            assert(listed.no_duplicates());
            listed.lemma_multiset_has_no_duplicates();
            sorted.lemma_multiset_has_no_duplicates_conv();
            assert forall|q: (i64, usize)| sorted.contains(q) == listed.contains(q) by {
                assert(sorted.to_multiset().count(q) == listed.to_multiset().count(q));
            }
            assert forall|j: int| 0 <= j < sorted.len() implies {
                let q = #[trigger] sorted[j];
                q.0 == order_32(logits@[q.1 as int]) && retained(logits@, threshold, q.1 as int)
            } by {
                assert(sorted.contains(sorted[j]));
                assert(listed.contains(sorted[j]));
            }
        }
        let mut order: Vec<usize> = Vec::with_capacity(self.ranked.len());
        let mut k: usize = 0;
        while k < self.ranked.len()
            invariant
                k <= self.ranked@.len(),
                self.ranked@ == sorted,
                order@.len() == k,
                forall|j: int| 0 <= j < k ==> #[trigger] order@[j] == sorted[j].1,
            decreases self.ranked@.len() - k,
        {
            order.push(self.ranked[k].1);
            k += 1;
        }
        proof {
            assert forall|a: int, b: int| 0 <= a < b < order@.len() implies before_in_order(
                logits@,
                #[trigger] order@[a],
                #[trigger] order@[b],
            ) by {
                assert(pair_order(sorted[a], sorted[b]));
                assert(sorted[a] != sorted[b]);
            }
            assert forall|a: int| 0 <= a < order@.len() implies retained(
                logits@,
                threshold,
                #[trigger] order@[a] as int,
            ) by {
                assert(order@[a] == sorted[a].1);
            }
            assert forall|t: usize|
                retained(logits@, threshold, t as int) implies #[trigger] order@.contains(t) by {
                let q = (order_32(logits@[t as int]) as i64, t);
                assert(retained(logits@, threshold, t as int));
                assert(listed.contains((order_32(logits@[t as int]) as i64, t as int as usize)));
                assert(sorted.contains(q));
                let j = choose|j: int| 0 <= j < sorted.len() && sorted[j] == q;
                assert(order@[j] == t);
            }
        }
        order
    }
}

/// The floating-point side of sampling. Numbers travel as binary64 bit patterns.
pub trait SamplingArithmetic {
    /// The exponential of the difference of two logits, given as binary32 bits, over the
    /// temperature.
    fn exponential(&self, temperature: u64, logit: u32, maximum: u32) -> u64;

    /// The quotient of two numbers.
    fn quotient(&self, left: u64, right: u64) -> u64;

    /// The difference of two numbers.
    fn difference(&self, left: u64, right: u64) -> u64;

    /// The running sums of some weights, in the order given.
    fn cumulative(&self, weights: &[u64]) -> Vec<u64>;

    /// `numerator` over 2^53.
    fn uniform(&self, numerator: u64) -> u64;

    /// The sum of some weights.
    fn total(&self, weights: &[u64]) -> u64;

    /// The product of two numbers.
    fn product(&self, left: u64, right: u64) -> u64;
}

/// Token `i` can be drawn: it is neither filtered nor masked and has a probability other than zero.
pub open spec fn drawable(
    logits: Seq<u32>,
    threshold: u32,
    probabilities: Seq<u64>,
    i: int,
) -> bool {
    &&& retained(logits, threshold, i)
    &&& logits[i] != NEG_INFINITY_32
    &&& order_64(probabilities[i]) != 0
}

/// `total` is a sum of these weights.
pub open spec fn sums_to<A: SamplingArithmetic>(
    arithmetic: &A,
    weights: Seq<u64>,
    total: u64,
) -> bool {
    exists|list: &[u64]|
        list@ == weights && #[trigger] call_ensures(A::total, (arithmetic, list), total)
}

/// `sums` are the running sums of these weights.
pub open spec fn runs_up_to<A: SamplingArithmetic>(
    arithmetic: &A,
    weights: Seq<u64>,
    sums: Vec<u64>,
) -> bool {
    exists|list: &[u64]|
        list@ == weights && #[trigger] call_ensures(A::cumulative, (arithmetic, list), sums)
}

/// Weights of a softmax: numbers from zero to one, one of them one, and no more of them than the
/// largest vocabulary has tokens.
pub open spec fn softmax_weights(weights: Seq<u64>) -> bool {
    &&& weights.len() <= i32::MAX + 1
    &&& weights.contains(ONE_64)
    &&& forall|i: int|
        0 <= i < weights.len() ==> 0 <= order_64(#[trigger] weights[i]) <= order_64(ONE_64)
}

/// What sampling relies on, all of it true of binary64 arithmetic:
/// an exponential of nothing above zero is from zero to one, and that of zero is one;
/// what is divided by the sum of the weights of a softmax is a number not below zero, and above
/// zero where it was one;
/// each weight has a running sum;
/// no sum of weights is positive where none of the weights is.
pub open spec fn usable<A: SamplingArithmetic>(arithmetic: &A) -> bool {
    &&& forall|temperature: u64, logit: u32, maximum: u32, result: u64|
        #![trigger call_ensures(A::exponential, (arithmetic, temperature, logit, maximum), result)]
        call_ensures(A::exponential, (arithmetic, temperature, logit, maximum), result) && 0
            < temperature < INFINITY_64 && order_32(NEG_INFINITY_32) <= order_32(logit) <= order_32(
            maximum,
        ) && order_32(NEG_INFINITY_32) < order_32(maximum) < order_32(INFINITY_32) ==> 0
            <= order_64(result) <= order_64(ONE_64) && (order_32(logit) == order_32(maximum)
            ==> result == ONE_64)
    &&& forall|weights: &[u64], total: u64, weight: u64, result: u64|
        #![trigger call_ensures(A::total, (arithmetic, weights), total),
            call_ensures(A::quotient, (arithmetic, weight, total), result)]
        softmax_weights(weights@) && 0 <= order_64(weight) <= order_64(ONE_64) && call_ensures(
            A::total,
            (arithmetic, weights),
            total,
        ) && call_ensures(A::quotient, (arithmetic, weight, total), result) ==> !nan_64(result)
            && order_64(result) >= 0 && (weight == ONE_64 ==> order_64(result) > 0)
    &&& forall|weights: &[u64], result: Vec<u64>|
        #![trigger call_ensures(A::cumulative, (arithmetic, weights), result)]
        call_ensures(A::cumulative, (arithmetic, weights), result) ==> result@.len()
            == weights@.len()
    &&& forall|weights: &[u64], result: u64|
        #![trigger call_ensures(A::total, (arithmetic, weights), result)]
        call_ensures(A::total, (arithmetic, weights), result) && less_64(0, result) ==> exists|
            i: int,
        |
            0 <= i < weights@.len() && less_64(0, #[trigger] weights@[i])
}

/// Token `t` is the one that `uniform` picks: the first drawable one whose running sum exceeds it,
/// or the last drawable one where rounding leaves every sum below it.
pub open spec fn picked(
    logits: Seq<u32>,
    threshold: u32,
    probabilities: Seq<u64>,
    sums: Seq<u64>,
    uniform: u64,
    t: int,
) -> bool {
    &&& drawable(logits, threshold, probabilities, t)
    &&& forall|j: int|
        0 <= j < t && #[trigger] drawable(logits, threshold, probabilities, j) ==> !less_64(
            uniform,
            sums[j],
        )
    &&& less_64(uniform, sums[t]) || forall|j: int| #[trigger]
        drawable(logits, threshold, probabilities, j) ==> j <= t
}

/// A uniform number picks one token.
pub proof fn law_picked_is_unique(
    logits: Seq<u32>,
    threshold: u32,
    probabilities: Seq<u64>,
    sums: Seq<u64>,
    uniform: u64,
    a: int,
    b: int,
)
    requires
        picked(logits, threshold, probabilities, sums, uniform, a),
        picked(logits, threshold, probabilities, sums, uniform, b),
    ensures
        a == b,
{
    assert(drawable(logits, threshold, probabilities, a));
    assert(drawable(logits, threshold, probabilities, b));
}

/// Pick a token by a uniform number.
pub fn pick_token(
    logits: &[u32],
    threshold: u32,
    probabilities: &[u64],
    sums: &[u64],
    uniform: u64,
) -> (token: usize)
    requires
        probabilities@.len() == logits@.len(),
        sums@.len() == logits@.len(),
        exists|i: int| #[trigger] drawable(logits@, threshold, probabilities@, i),
    ensures
        picked(logits@, threshold, probabilities@, sums@, uniform, token as int),
{
    let lowest: i64 = rank_32(threshold);
    let mut last: usize = 0;
    let mut found = false;
    let mut token: usize = 0;
    while token < logits.len()
        invariant
            token <= logits@.len(),
            probabilities@.len() == logits@.len(),
            sums@.len() == logits@.len(),
            lowest == order_32(threshold),
            found ==> last < token && drawable(logits@, threshold, probabilities@, last as int),
            forall|j: int|
                0 <= j < token && #[trigger] drawable(logits@, threshold, probabilities@, j)
                    ==> found && j <= last && !less_64(uniform, sums@[j]),
        decreases logits@.len() - token,
    {
        let probability: u64 = probabilities[token];
        if probability != 0 && probability != 0x8000_0000_0000_0000 && rank_32(logits[token])
            >= lowest && logits[token] != NEG_INFINITY_32 {
            assert(drawable(logits@, threshold, probabilities@, token as int));
            last = token;
            found = true;
            if is_less_64(uniform, sums[token]) {
                return token;
            }
        }
        token += 1;
    }
    proof {
        let i = choose|i: int| #[trigger] drawable(logits@, threshold, probabilities@, i);
        assert(0 <= i < token);
    }
    last
}

/// A request-local sampler. Cloning preserves its exact current RNG state.
#[derive(Debug)]
pub struct TokenSampler {
    pub config: SamplingConfig,
    pub rng: ChaCha12Rng,
    pub workspace: SamplingWorkspace,
}

/// What matters of a sampler: its options and where its random stream stands.
#[verifier::ext_equal]
pub struct SamplerModel {
    pub config: SamplingConfig,
    pub state: Seq<u8>,
}

impl View for TokenSampler {
    type V = SamplerModel;

    open spec fn view(&self) -> SamplerModel {
        SamplerModel { config: self.config, state: rng_state(self.rng) }
    }
}

impl Clone for TokenSampler {
    fn clone(&self) -> (copy: Self)
        ensures
            copy@ == self@,
            copy.workspace.ranked@.len() == 0,
    {
        // Scratch buffers are not semantic state. Avoid copying a full
        // vocabulary when the scheduler previews a request's next draw.
        TokenSampler {
            config: self.config,
            rng: copy_rng(&self.rng),
            workspace: SamplingWorkspace::default(),
        }
    }
}

/// `token` is what a sampler in the given state returns for a row that it accepts.
pub open spec fn sampled<A: SamplingArithmetic>(
    arithmetic: &A,
    sampler: SamplerModel,
    logits: &[u32],
    token: i32,
) -> bool {
    exists|plan: FilterPlan, probabilities: Vec<u64>, sums: Vec<u64>, uniform: u64|
        #[trigger] sampled_with(
            arithmetic,
            sampler,
            logits,
            token,
            plan,
            probabilities,
            sums,
            uniform,
        )
}

/// What sampling a token comes to: refused without a draw where the logits have a fault, and one
/// draw of the sampler otherwise.
pub open spec fn sample_outcome<A: SamplingArithmetic>(
    arithmetic: &A,
    before: SamplerModel,
    logits: &[u32],
    result: Result<i32, GenerationError>,
    after: SamplerModel,
) -> bool {
    match (result, fill_error(before.config, logits@)) {
        (Ok(token), None) => sampled(arithmetic, before, logits, token) && after == (SamplerModel {
            config: before.config,
            state: after_draw(before.state),
        }),
        (Err(error), Some(message)) => error.0@ == message && after == before,
        _ => false,
    }
}

/// As `sampled`, with the intermediate results of the arithmetic.
pub open spec fn sampled_with<A: SamplingArithmetic>(
    arithmetic: &A,
    sampler: SamplerModel,
    logits: &[u32],
    token: i32,
    plan: FilterPlan,
    probabilities: Vec<u64>,
    sums: Vec<u64>,
    uniform: u64,
) -> bool {
    &&& plan_for(sampler.config, logits@, plan)
    &&& shares_of(arithmetic, sampler.config, logits@, plan, probabilities@)
    &&& call_ensures(A::uniform, (arithmetic, uniform_numerator(sampler.state)), uniform)
    &&& runs_up_to(arithmetic, probabilities@, sums)
    &&& picked(logits@, plan.threshold, probabilities@, sums@, uniform, token as int)
}

/// A sampled token is an entry of the vocabulary that is neither masked nor filtered by top-k.
pub proof fn law_sampled_stays_in_vocabulary<A: SamplingArithmetic>(
    arithmetic: &A,
    sampler: SamplerModel,
    logits: &[u32],
    token: i32,
)
    requires
        sampled(arithmetic, sampler, logits, token),
    ensures
        0 <= token < logits@.len(),
        logits@[token as int] != NEG_INFINITY_32,
        top_k_active(sampler.config, logits@) ==> exists|threshold: u32| #[trigger]
            kth_greatest(logits@, sampler.config.top_k as int, threshold) && order_32(
                logits@[token as int],
            ) >= order_32(threshold),
{
    let (plan, probabilities, sums, uniform) = choose|
        plan: FilterPlan,
        probabilities: Vec<u64>,
        sums: Vec<u64>,
        uniform: u64,
    | #[trigger]
        sampled_with(arithmetic, sampler, logits, token, plan, probabilities, sums, uniform);
    assert(drawable(logits@, plan.threshold, probabilities@, token as int));
    assert(retained(logits@, plan.threshold, token as int));
}

impl TokenSampler {
    pub fn new(config: SamplingConfig) -> (result: Result<Self, GenerationError>)
        ensures
            match (result, config_error(config)) {
                (Ok(sampler), None) => sampler@.config == config && (config.seed matches Some(seed)
                    ==> sampler@.state == chacha12_seeded(seed)),
                (Err(error), Some(message)) => error.0@ == message,
                _ => false,
            },
    {
        match config.validate() {
            Ok(_) => {},
            Err(error) => {
                return Err(error);
            },
        }
        let rng = match config.seed {
            Some(seed) => seeded_rng(seed),
            None => entropy_rng(),
        };
        Ok(TokenSampler { config, rng, workspace: SamplingWorkspace::default() })
    }

    /// Release reusable vocabulary buffers without changing configuration or
    /// RNG state. Useful when retaining many idle samplers between requests.
    pub fn clear_workspace(&mut self)
        ensures
            final(self)@ == old(self)@,
            final(self).workspace.ranked@.len() == 0,
    {
        self.workspace = SamplingWorkspace::default();
    }

    /// Sample one vocabulary index. Negative infinity masks a token; NaN,
    /// positive infinity and a fully masked vocabulary return an error.
    /// A row that is refused does not use up a random number; any other row uses up one.
    pub fn sample<A: SamplingArithmetic>(&mut self, arithmetic: &A, logits: &[u32]) -> (result:
        Result<i32, GenerationError>)
        requires
            usable(arithmetic),
        ensures
            sample_outcome(arithmetic, old(self)@, logits, result, final(self)@),
    {
        let config = self.config;
        let plan = match self.workspace.fill(logits, config) {
            Ok(plan) => plan,
            Err(error) => {
                return Err(error);
            },
        };
        let shares = probabilities(arithmetic, &config, logits, &plan);
        proof {
            law_some_token_can_be_drawn(arithmetic, config, logits@, plan, shares@);
        }
        let numerator: u64 = draw_numerator(&mut self.rng);
        let uniform: u64 = arithmetic.uniform(numerator);
        let sums = arithmetic.cumulative(&shares);
        assert(runs_up_to(arithmetic, shares@, sums));
        let token: usize = pick_token(logits, plan.threshold, &shares, &sums, uniform);
        let picked_token: i32 = token as i32;
        proof {
            assert(token < logits@.len());
            assert(sampled_with(
                arithmetic,
                old(self)@,
                logits,
                picked_token,
                plan,
                shares,
                sums,
                uniform,
            ));
        }
        Ok(picked_token)
    }
}

/// The probabilities that the options give a row of logits.
pub fn filtered_probabilities<A: SamplingArithmetic>(
    arithmetic: &A,
    logits: &[u32],
    config: SamplingConfig,
) -> (result: Result<Vec<u64>, GenerationError>)
    requires
        usable(arithmetic),
    ensures
        match (result, fill_error(config, logits@)) {
            (Ok(probabilities), None) => filtered(arithmetic, config, logits, probabilities)
                && probabilities@.len() == logits@.len(),
            (Err(error), Some(message)) => error.0@ == message,
            _ => false,
        },
{
    let mut workspace = SamplingWorkspace::default();
    let plan = match workspace.fill(logits, config) {
        Ok(plan) => plan,
        Err(error) => {
            return Err(error);
        },
    };
    let shares = probabilities(arithmetic, &config, logits, &plan);
    assert(filtered_with(arithmetic, config, logits, shares, plan));
    Ok(shares)
}

/// `probabilities` are what the arithmetic makes of a row.
pub open spec fn filtered<A: SamplingArithmetic>(
    arithmetic: &A,
    config: SamplingConfig,
    logits: &[u32],
    probabilities: Vec<u64>,
) -> bool {
    exists|plan: FilterPlan| #[trigger]
        filtered_with(arithmetic, config, logits, probabilities, plan)
}

/// As `filtered`, with the plan.
pub open spec fn filtered_with<A: SamplingArithmetic>(
    arithmetic: &A,
    config: SamplingConfig,
    logits: &[u32],
    probabilities: Vec<u64>,
    plan: FilterPlan,
) -> bool {
    plan_for(config, logits@, plan) && shares_of(
        arithmetic,
        config,
        logits@,
        plan,
        probabilities@,
    )
}

} // verus!
