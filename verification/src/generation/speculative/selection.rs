//! Proposing a token from one row of logits and verifying it against another.

use crate::generation::sampling::{
    fill_error, filtered, filtered_probabilities, runs_up_to, sums_to, usable, SamplingArithmetic,
    SamplingConfig,
};
use crate::generation::GenerationError;
use crate::logits::{
    all_nan, at_most_64, first_maximum, is_at_most_64, is_less_64, less_64, maximum_index,
    INFINITY_64, ONE_64,
};
use crate::rng::{
    after_draw, chacha12_seeded, draw_numerator, entropy_rng, rng_state, seeded_rng,
    uniform_numerator,
};
use crate::text::text;
use chacha20::ChaCha12Rng;
use vstd::prelude::*;

verus! {

/// The positive part of a number; zero for NaN.
pub open spec fn positive_part(number: u64) -> u64 {
    if less_64(0, number) {
        number
    } else {
        0
    }
}

/// A number capped at one; one for NaN.
pub open spec fn capped(number: u64) -> u64 {
    if at_most_64(number, ONE_64) {
        number
    } else {
        ONE_64
    }
}

/// `surplus` is the positive part of the difference of these probabilities.
pub open spec fn exceeds_by<A: SamplingArithmetic>(
    arithmetic: &A,
    target: u64,
    draft: u64,
    surplus: u64,
) -> bool {
    exists|difference: u64| #[trigger]
        call_ensures(A::difference, (arithmetic, target, draft), difference) && surplus
            == positive_part(difference)
}

/// `residual` is the positive part of the difference of these rows, token by token.
pub open spec fn leaves<A: SamplingArithmetic>(
    arithmetic: &A,
    target: Seq<u64>,
    draft: Seq<u64>,
    residual: Seq<u64>,
) -> bool {
    &&& residual.len() == target.len()
    &&& forall|i: int|
        0 <= i < residual.len() ==> exceeds_by(
            arithmetic,
            target[i],
            draft[i],
            #[trigger] residual[i],
        )
}

/// A uniform number accepts a candidate with these probabilities: it is below their ratio, the
/// ratio capped at one.
pub open spec fn accepts<A: SamplingArithmetic>(
    arithmetic: &A,
    target: u64,
    draft: u64,
    uniform: u64,
    accepted: bool,
) -> bool {
    exists|ratio: u64| #[trigger]
        call_ensures(A::quotient, (arithmetic, target, draft), ratio) && accepted == less_64(
            uniform,
            capped(ratio),
        )
}

/// `shares` are the filtered probabilities of a row of logits.
pub open spec fn filters_to<A: SamplingArithmetic>(
    arithmetic: &A,
    config: SamplingConfig,
    row: Seq<u32>,
    shares: Seq<u64>,
) -> bool {
    exists|list: &[u32], probabilities: Vec<u64>|
        list@ == row && probabilities@ == shares && #[trigger] filtered(
            arithmetic,
            config,
            list,
            probabilities,
        )
}

/// A sum that can be drawn from: positive and finite.
pub open spec fn positive_sum(total: u64) -> bool {
    less_64(0, total) && total != INFINITY_64
}

/// Index `t` is the one that `threshold` picks among weights: the first positive one whose running
/// sum exceeds it, or the last positive one where rounding leaves every sum below it.
pub open spec fn drawn(weights: Seq<u64>, sums: Seq<u64>, threshold: u64, t: int) -> bool {
    &&& 0 <= t < weights.len()
    &&& less_64(0, weights[t])
    &&& forall|j: int|
        0 <= j < t && less_64(0, #[trigger] weights[j]) ==> !less_64(threshold, sums[j])
    &&& less_64(threshold, sums[t]) || forall|j: int|
        0 <= j < weights.len() && less_64(0, #[trigger] weights[j]) ==> j <= t
}

/// A generator in `state` may draw `token` from these weights.
pub open spec fn draws<A: SamplingArithmetic>(
    arithmetic: &A,
    state: Seq<u8>,
    weights: Seq<u64>,
    token: i32,
) -> bool {
    exists|uniform: u64|
        #![trigger draws_at(arithmetic, uniform, weights, token)]
        call_ensures(A::uniform, (arithmetic, uniform_numerator(state)), uniform) && draws_at(
            arithmetic,
            uniform,
            weights,
            token,
        )
}

/// A uniform number draws `token` from these weights.
pub open spec fn draws_at<A: SamplingArithmetic>(
    arithmetic: &A,
    uniform: u64,
    weights: Seq<u64>,
    token: i32,
) -> bool {
    exists|total: u64, threshold: u64, sums: Vec<u64>| #[trigger]
        draws_with(arithmetic, uniform, weights, token, total, threshold, sums)
}

/// A token is drawn with these numbers.
pub open spec fn draws_with<A: SamplingArithmetic>(
    arithmetic: &A,
    uniform: u64,
    weights: Seq<u64>,
    token: i32,
    total: u64,
    threshold: u64,
    sums: Vec<u64>,
) -> bool {
    &&& sums_to(arithmetic, weights, total)
    &&& positive_sum(total)
    &&& call_ensures(A::product, (arithmetic, uniform, total), threshold)
    &&& runs_up_to(arithmetic, weights, sums)
    &&& drawn(weights, sums@, threshold, token as int)
}

/// These weights have no sum that can be drawn from.
pub open spec fn empty_distribution<A: SamplingArithmetic>(
    arithmetic: &A,
    weights: Seq<u64>,
) -> bool {
    exists|total: u64| #[trigger] sums_to(arithmetic, weights, total) && !positive_sum(total)
}

/// `token` is the index of the first greatest logit.
pub open spec fn greatest(row: Seq<u32>, token: i32) -> bool {
    exists|i: int| #[trigger] first_maximum(row, i) && token == i as i32
}

/// A row may have `token` proposed from it, with these probabilities, and the generator go from
/// `before` to `after`. Without sampling the token is the greatest one and there are no
/// probabilities.
pub open spec fn proposed<A: SamplingArithmetic>(
    arithmetic: &A,
    config: Option<SamplingConfig>,
    before: Seq<u8>,
    row: Seq<u32>,
    token: i32,
    shares: Seq<u64>,
    after: Seq<u8>,
) -> bool {
    match config {
        None => greatest(row, token) && shares.len() == 0 && after == before,
        Some(sampling) => filters_to(arithmetic, sampling, row, shares) && draws(
            arithmetic,
            before,
            shares,
            token,
        ) && after == after_draw(before),
    }
}

/// Why no token can be proposed from a row.
pub open spec fn proposal_fault<A: SamplingArithmetic>(
    arithmetic: &A,
    config: Option<SamplingConfig>,
    row: Seq<u32>,
    message: Seq<char>,
) -> bool {
    match config {
        None => all_nan(row) && message == "all vocabulary logits are NaN"@,
        Some(sampling) => match fill_error(sampling, row) {
            Some(reason) => message == reason,
            None => message == "empty or nonfinite speculative sampling distribution"@ && exists|
                shares: Seq<u64>,
            | #[trigger]
                filters_to(arithmetic, sampling, row, shares) && empty_distribution(
                    arithmetic,
                    shares,
                ),
        },
    }
}

/// A candidate that was proposed with the probabilities `shares` may be answered with `token`, the
/// generator going from `before` to `after`. Without sampling the answer is the greatest token of
/// the row, and the candidate is accepted where it is that token. With sampling the candidate is
/// accepted by the ratio of its probabilities; where it is not, the answer is drawn from what the
/// row's probabilities have over the proposal's.
pub open spec fn verified<A: SamplingArithmetic>(
    arithmetic: &A,
    config: Option<SamplingConfig>,
    before: Seq<u8>,
    candidate: i32,
    shares: Seq<u64>,
    row: Seq<u32>,
    token: i32,
    accepted: bool,
    after: Seq<u8>,
) -> bool {
    match config {
        None => greatest(row, token) && accepted == (token == candidate) && after == before,
        Some(sampling) => exists|target: Seq<u64>, uniform: u64| #[trigger]
            weighs(arithmetic, sampling, before, candidate, shares, row, target, uniform, accepted)
                && if accepted {
                token == candidate && after == after_draw(before)
            } else {
                &&& exists|residual: Seq<u64>| #[trigger]
                    leaves(arithmetic, target, shares, residual) && draws(
                        arithmetic,
                        after_draw(before),
                        residual,
                        token,
                    )
                &&& after == after_draw(after_draw(before))
            },
    }
}

/// A candidate is weighed against a row with these probabilities and this uniform number.
pub open spec fn weighs<A: SamplingArithmetic>(
    arithmetic: &A,
    sampling: SamplingConfig,
    state: Seq<u8>,
    candidate: i32,
    shares: Seq<u64>,
    row: Seq<u32>,
    target: Seq<u64>,
    uniform: u64,
    accepted: bool,
) -> bool {
    &&& filters_to(arithmetic, sampling, row, target)
    &&& call_ensures(A::uniform, (arithmetic, uniform_numerator(state)), uniform)
    &&& accepts(arithmetic, target[candidate as int], shares[candidate as int], uniform, accepted)
}

/// Why a candidate cannot be answered: the row has a fault; or the candidate is not accepted, and
/// what the row's probabilities have over the proposal's has no sum that can be drawn from.
pub open spec fn verification_fault<A: SamplingArithmetic>(
    arithmetic: &A,
    config: Option<SamplingConfig>,
    before: Seq<u8>,
    candidate: i32,
    shares: Seq<u64>,
    row: Seq<u32>,
    message: Seq<char>,
) -> bool {
    match config {
        None => all_nan(row) && message == "all vocabulary logits are NaN"@,
        Some(sampling) => match fill_error(sampling, row) {
            Some(reason) => message == reason,
            None => message == "empty or nonfinite speculative sampling distribution"@ && exists|
                target: Seq<u64>,
                uniform: u64,
                residual: Seq<u64>,
            |
                #[trigger] weighs(
                    arithmetic,
                    sampling,
                    before,
                    candidate,
                    shares,
                    row,
                    target,
                    uniform,
                    false,
                ) && #[trigger] leaves(arithmetic, target, shares, residual) && empty_distribution(
                    arithmetic,
                    residual,
                ),
        },
    }
}

/// A candidate that was proposed with these probabilities has one among them.
pub open spec fn weighable(config: Option<SamplingConfig>, candidate: i32, shares: Seq<u64>) -> bool {
    config is Some ==> 0 <= candidate < shares.len()
}

/// Whether a uniform number accepts a candidate with these probabilities.
pub fn accept<A: SamplingArithmetic>(
    arithmetic: &A,
    target: u64,
    draft: u64,
    uniform: u64,
) -> (accepted: bool)
    ensures
        accepts(arithmetic, target, draft, uniform, accepted),
{
    let ratio: u64 = arithmetic.quotient(target, draft);
    let bound: u64 = if is_at_most_64(ratio, ONE_64) {
        ratio
    } else {
        ONE_64
    };
    is_less_64(uniform, bound)
}

/// What one row of probabilities has over another.
pub fn residual<A: SamplingArithmetic>(
    arithmetic: &A,
    target: &Vec<u64>,
    draft: &Vec<u64>,
) -> (residual: Vec<u64>)
    requires
        target@.len() == draft@.len(),
    ensures
        leaves(arithmetic, target@, draft@, residual@),
{
    let mut surplus: Vec<u64> = Vec::with_capacity(target.len());
    let mut i: usize = 0;
    while i < target.len()
        invariant
            i <= target@.len() == draft@.len(),
            surplus@.len() == i,
            forall|j: int|
                0 <= j < surplus@.len() ==> exceeds_by(
                    arithmetic,
                    target@[j],
                    draft@[j],
                    #[trigger] surplus@[j],
                ),
        decreases target@.len() - i,
    {
        let difference: u64 = arithmetic.difference(target[i], draft[i]);
        let part: u64 = if is_less_64(0, difference) {
            difference
        } else {
            0
        };
        assert(exceeds_by(arithmetic, target@[i as int], draft@[i as int], part));
        surplus.push(part);
        i += 1;
    }
    surplus
}

/// Draw an index from weights.
pub fn draw<A: SamplingArithmetic>(arithmetic: &A, weights: &Vec<u64>, uniform: u64) -> (result: Result<
    i32,
    GenerationError,
>)
    requires
        usable(arithmetic),
        0 < weights@.len() <= i32::MAX + 1,
    ensures
        match result {
            Ok(token) => draws_at(arithmetic, uniform, weights@, token) && 0 <= token
                < weights@.len(),
            Err(error) => error.0@ == "empty or nonfinite speculative sampling distribution"@
                && empty_distribution(arithmetic, weights@),
        },
{
    let total: u64 = arithmetic.total(weights);
    assert(sums_to(arithmetic, weights@, total));
    if !is_less_64(0, total) || total == INFINITY_64 {
        return Err(
            GenerationError(text("empty or nonfinite speculative sampling distribution")),
        );
    }
    let threshold: u64 = arithmetic.product(uniform, total);
    let sums = arithmetic.cumulative(weights);
    assert(runs_up_to(arithmetic, weights@, sums));
    let mut last: usize = 0;
    let mut found = false;
    let mut index: usize = 0;
    while index < weights.len()
        invariant
            index <= weights@.len() <= i32::MAX + 1,
            sums@.len() == weights@.len(),
            found ==> last < index && less_64(0, weights@[last as int]),
            forall|j: int|
                0 <= j < index && less_64(0, #[trigger] weights@[j]) ==> found && j <= last
                    && !less_64(threshold, sums@[j]),
            sums_to(arithmetic, weights@, total),
            positive_sum(total),
            call_ensures(A::product, (arithmetic, uniform, total), threshold),
            runs_up_to(arithmetic, weights@, sums),
        decreases weights@.len() - index,
    {
        if is_less_64(0, weights[index]) {
            last = index;
            found = true;
            if is_less_64(threshold, sums[index]) {
                let token: i32 = index as i32;
                assert(draws_with(arithmetic, uniform, weights@, token, total, threshold, sums));
                return Ok(token);
            }
        }
        index += 1;
    }
    proof {
        let i = choose|i: int| 0 <= i < weights@.len() && less_64(0, #[trigger] weights@[i]);
        assert(found);
    }
    let token: i32 = last as i32;
    assert(draws_with(arithmetic, uniform, weights@, token, total, threshold, sums));
    Ok(token)
}

/// The index of the first greatest logit.
pub fn argmax(logits: &[u32]) -> (result: Result<i32, GenerationError>)
    ensures
        match result {
            Ok(token) => greatest(logits@, token),
            Err(error) => all_nan(logits@) && error.0@ == "all vocabulary logits are NaN"@,
        },
{
    match maximum_index(logits) {
        Some(index) => {
            let token: i32 = #[verifier::truncate]
            (index as i32);
            assert(first_maximum(logits@, index as int));
            Ok(token)
        },
        None => Err(GenerationError(text("all vocabulary logits are NaN"))),
    }
}

/// How tokens are proposed and verified.
pub struct Selection {
    pub config: Option<SamplingConfig>,
    pub rng: ChaCha12Rng,
}

impl Selection {
    /// The state of the generator.
    pub open spec fn state(&self) -> Seq<u8> {
        rng_state(self.rng)
    }

    pub fn new(config: Option<SamplingConfig>) -> (selection: Self)
        ensures
            selection.config == config,
            config matches Some(sampling) ==> (sampling.seed matches Some(seed)
                ==> selection.state() == chacha12_seeded(seed)),
    {
        let rng = match config {
            Some(sampling) => match sampling.seed {
                Some(seed) => seeded_rng(seed),
                None => entropy_rng(),
            },
            None => entropy_rng(),
        };
        Selection { config, rng }
    }

    /// Draw from weights with the next uniform number.
    fn draw_next<A: SamplingArithmetic>(&mut self, arithmetic: &A, weights: &Vec<u64>) -> (result:
        Result<i32, GenerationError>)
        requires
            usable(arithmetic),
            0 < weights@.len() <= i32::MAX + 1,
        ensures
            final(self).config == old(self).config,
            final(self).state() == after_draw(old(self).state()),
            match result {
                Ok(token) => draws(arithmetic, old(self).state(), weights@, token) && 0 <= token
                    < weights@.len(),
                Err(error) => error.0@ == "empty or nonfinite speculative sampling distribution"@
                    && empty_distribution(arithmetic, weights@),
            },
    {
        let numerator: u64 = draw_numerator(&mut self.rng);
        let uniform: u64 = arithmetic.uniform(numerator);
        draw(arithmetic, weights, uniform)
    }

    pub fn propose<A: SamplingArithmetic>(&mut self, arithmetic: &A, logits: &[u32]) -> (result: Result<
        (i32, Vec<u64>),
        GenerationError,
    >)
        requires
            old(self).config is Some ==> usable(arithmetic),
        ensures
            final(self).config == old(self).config,
            match result {
                Ok((token, shares)) => proposed(
                    arithmetic,
                    old(self).config,
                    old(self).state(),
                    logits@,
                    token,
                    shares@,
                    final(self).state(),
                ) && weighable(old(self).config, token, shares@) && (old(self).config is Some
                    ==> shares@.len() == logits@.len()),
                Err(error) => proposal_fault(arithmetic, old(self).config, logits@, error.0@),
            },
    {
        match self.config {
            Some(sampling) => {
                let shares = match filtered_probabilities(arithmetic, logits, sampling) {
                    Ok(shares) => shares,
                    Err(error) => {
                        return Err(error);
                    },
                };
                assert(filters_to(arithmetic, sampling, logits@, shares@));
                match self.draw_next(arithmetic, &shares) {
                    Ok(token) => Ok((token, shares)),
                    Err(error) => Err(error),
                }
            },
            None => match argmax(logits) {
                Ok(token) => Ok((token, Vec::new())),
                Err(error) => Err(error),
            },
        }
    }

    pub fn verify<A: SamplingArithmetic>(
        &mut self,
        arithmetic: &A,
        candidate: i32,
        shares: &Vec<u64>,
        logits: &[u32],
    ) -> (result: Result<(i32, bool), GenerationError>)
        requires
            old(self).config is Some ==> usable(arithmetic),
            weighable(old(self).config, candidate, shares@),
            old(self).config is Some ==> shares@.len() == logits@.len(),
        ensures
            final(self).config == old(self).config,
            match result {
                Ok((token, accepted)) => verified(
                    arithmetic,
                    old(self).config,
                    old(self).state(),
                    candidate,
                    shares@,
                    logits@,
                    token,
                    accepted,
                    final(self).state(),
                ),
                Err(error) => verification_fault(
                    arithmetic,
                    old(self).config,
                    old(self).state(),
                    candidate,
                    shares@,
                    logits@,
                    error.0@,
                ),
            },
    {
        match self.config {
            Some(sampling) => {
                let target = match filtered_probabilities(arithmetic, logits, sampling) {
                    Ok(target) => target,
                    Err(error) => {
                        return Err(error);
                    },
                };
                assert(filters_to(arithmetic, sampling, logits@, target@));
                let index: usize = candidate as usize;
                let numerator: u64 = draw_numerator(&mut self.rng);
                let uniform: u64 = arithmetic.uniform(numerator);
                let accepted = accept(arithmetic, target[index], shares[index], uniform);
                assert(weighs(
                    arithmetic,
                    sampling,
                    old(self).state(),
                    candidate,
                    shares@,
                    logits@,
                    target@,
                    uniform,
                    accepted,
                ));
                if accepted {
                    return Ok((candidate, true));
                }
                let surplus = residual(arithmetic, &target, shares);
                assert(leaves(arithmetic, target@, shares@, surplus@));
                match self.draw_next(arithmetic, &surplus) {
                    Ok(token) => Ok((token, false)),
                    Err(error) => Err(error),
                }
            },
            None => match argmax(logits) {
                Ok(token) => Ok((token, token == candidate)),
                Err(error) => Err(error),
            },
        }
    }
}

/// Greedy verification accepts a candidate exactly where the row would have had it chosen, and
/// answers with the row's own choice otherwise.
pub proof fn law_greedy_verification_is_the_row_choice<A: SamplingArithmetic>(
    arithmetic: &A,
    before: Seq<u8>,
    candidate: i32,
    shares: Seq<u64>,
    row: Seq<u32>,
    token: i32,
    accepted: bool,
    after: Seq<u8>,
)
    requires
        verified(arithmetic, None, before, candidate, shares, row, token, accepted, after),
    ensures
        greatest(row, token),
        accepted <==> greatest(row, candidate),
{
    if greatest(row, candidate) {
        let i = choose|i: int| #[trigger] first_maximum(row, i) && token == i as i32;
        let j = choose|j: int| #[trigger] first_maximum(row, j) && candidate == j as i32;
        crate::logits::lemma_first_maximum_unique(row, i, j);
    }
}

/// Arithmetic that keeps the order of numbers: uniform numbers are below one, a quotient below one
/// has the lesser number over the greater, and a positive difference the greater less the lesser.
pub open spec fn keeps_order<A: SamplingArithmetic>(arithmetic: &A) -> bool {
    &&& forall|numerator: u64, uniform: u64| #[trigger]
        call_ensures(A::uniform, (arithmetic, numerator), uniform) && numerator < 0x20_0000_0000_0000
            ==> less_64(uniform, ONE_64)
    &&& forall|left: u64, right: u64, ratio: u64| #[trigger]
        call_ensures(A::quotient, (arithmetic, left, right), ratio) && less_64(0, right) && less_64(
            ratio,
            ONE_64,
        ) ==> less_64(left, right)
    &&& forall|left: u64, right: u64, difference: u64| #[trigger]
        call_ensures(A::difference, (arithmetic, left, right), difference) && less_64(0, difference)
            ==> less_64(right, left)
}

/// A candidate that sampling rejects is not the answer, and the answer is a token that the row
/// gives more probability than the proposal did.
pub proof fn law_rejected_candidate_is_replaced<A: SamplingArithmetic>(
    arithmetic: &A,
    sampling: SamplingConfig,
    drafted: Seq<u32>,
    proposing: Seq<u8>,
    before: Seq<u8>,
    candidate: i32,
    shares: Seq<u64>,
    row: Seq<u32>,
    token: i32,
    after: Seq<u8>,
)
    requires
        keeps_order(arithmetic),
        proposed(
            arithmetic,
            Some(sampling),
            proposing,
            drafted,
            candidate,
            shares,
            before,
        ),
        verified(
            arithmetic,
            Some(sampling),
            before,
            candidate,
            shares,
            row,
            token,
            false,
            after,
        ),
    ensures
        token != candidate,
        exists|target: Seq<u64>| #[trigger]
            filters_to(arithmetic, sampling, row, target) && 0 <= token < target.len() && less_64(
                shares[token as int],
                target[token as int],
            ),
{
    let drawn_at = choose|uniform: u64|
        #![trigger draws_at(arithmetic, uniform, shares, candidate)]
        call_ensures(A::uniform, (arithmetic, uniform_numerator(proposing)), uniform) && draws_at(
            arithmetic,
            uniform,
            shares,
            candidate,
        );
    assert(less_64(0, shares[candidate as int]));
    let (target, uniform) = choose|target: Seq<u64>, uniform: u64| #[trigger]
        weighs(arithmetic, sampling, before, candidate, shares, row, target, uniform, false)
            && exists|residual: Seq<u64>| #[trigger]
            leaves(arithmetic, target, shares, residual) && draws(
                arithmetic,
                after_draw(before),
                residual,
                token,
            );
    let residual = choose|residual: Seq<u64>| #[trigger]
        leaves(arithmetic, target, shares, residual) && draws(
            arithmetic,
            after_draw(before),
            residual,
            token,
        );
    let answered_at = choose|uniform: u64|
        #![trigger draws_at(arithmetic, uniform, residual, token)]
        call_ensures(A::uniform, (arithmetic, uniform_numerator(after_draw(before))), uniform)
            && draws_at(arithmetic, uniform, residual, token);
    assert(less_64(0, residual[token as int]));
    assert(exceeds_by(
        arithmetic,
        target[token as int],
        shares[token as int],
        residual[token as int],
    ));
    assert(less_64(shares[token as int], target[token as int]));
    let ratio = choose|ratio: u64| #[trigger]
        call_ensures(
            A::quotient,
            (arithmetic, target[candidate as int], shares[candidate as int]),
            ratio,
        ) && !less_64(uniform, capped(ratio));
    assert(less_64(uniform, ONE_64));
    assert(less_64(ratio, ONE_64));
}

} // verus!
