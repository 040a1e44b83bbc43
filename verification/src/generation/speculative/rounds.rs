//! What a round of speculation is, and what a run of rounds adds up to.

use crate::generation::sampling::{SamplingArithmetic, SamplingConfig};
use crate::generation::speculative::branch::{predicted, SpeculativeModel};
use crate::generation::speculative::selection::{greatest, proposed, verified};
use crate::generation::Ending;
use vstd::prelude::*;

verus! {

/// The parts of a request that every round goes by.
#[verifier::ext_equal]
pub struct Setting {
    pub sampling: Option<SamplingConfig>,
    pub draft_tokens: usize,
    pub vocabulary: usize,
    pub ending: Ending,
}

/// One round: a block of candidates, and the tokens that verification made of it.
#[verifier::ext_equal]
pub struct Round {
    /// Prompt and generated tokens before the round.
    pub context: Seq<i32>,
    pub candidates: Seq<i32>,
    /// The logits that each candidate was proposed from.
    pub draft_rows: Seq<Seq<u32>>,
    /// The probabilities that each candidate was proposed with.
    pub shares: Seq<Vec<u64>>,
    /// The random generator before each proposal, and after the last.
    pub proposal_states: Seq<Seq<u8>>,
    /// The target's logits before each candidate, and after the last.
    pub target_rows: Seq<Seq<u32>>,
    /// The tokens that were emitted.
    pub tokens: Seq<i32>,
    /// The random generator before each emitted token, and after the last.
    pub answer_states: Seq<Seq<u8>>,
    /// The last emitted token replaced a candidate.
    pub rejected: bool,
    /// The emitted tokens were read again from where the round began.
    pub replayed: bool,
}

impl Round {
    /// Every candidate was accepted and one more token drawn from the target.
    pub open spec fn bonus(self) -> bool {
        self.tokens.len() == self.candidates.len() + 1
    }

    /// The number of candidates that were accepted.
    pub open spec fn accepted(self) -> int {
        self.tokens.len() - if self.rejected || self.bonus() {
            1int
        } else {
            0int
        }
    }

    /// The round left the models ready for the next one.
    pub open spec fn complete(self) -> bool {
        self.bonus() || self.replayed
    }
}

/// Each candidate is proposed from the draft's logits after the context and the candidates before
/// it, one random state after the other.
pub open spec fn proposes<D: SpeculativeModel, A: SamplingArithmetic>(
    draft: &D,
    arithmetic: &A,
    setting: Setting,
    context: Seq<i32>,
    candidates: Seq<i32>,
    draft_rows: Seq<Seq<u32>>,
    shares: Seq<Vec<u64>>,
    states: Seq<Seq<u8>>,
) -> bool {
    &&& draft_rows.len() == candidates.len()
    &&& shares.len() == candidates.len()
    &&& states.len() == candidates.len() + 1
    &&& forall|i: int|
        #![trigger draft_rows[i]]
        0 <= i < candidates.len() ==> predicted(
            draft,
            setting.vocabulary,
            context + candidates.take(i),
            draft_rows[i],
        ) && proposed(
            arithmetic,
            setting.sampling,
            states[i],
            draft_rows[i],
            candidates[i],
            shares[i]@,
            states[i + 1],
        )
}

/// The longest block that may follow after `done` generated tokens.
pub open spec fn block_limit(setting: Setting, done: nat) -> int {
    let room = setting.ending.max_new_tokens - done;
    if setting.draft_tokens <= room {
        setting.draft_tokens as int
    } else {
        room
    }
}

/// A block is as long as allowed, or ends with the first candidate that would end the request.
pub open spec fn block_complete(setting: Setting, done: nat, candidates: Seq<i32>) -> bool {
    let eos = setting.ending.eos;
    let limit = block_limit(setting, done);
    &&& 0 < candidates.len() <= limit
    &&& forall|i: int| 0 <= i < candidates.len() - 1 ==> !eos.contains(#[trigger] candidates[i])
    &&& candidates.len() == limit || eos.contains(candidates.last())
}

/// The target's logits before each candidate, and after the last.
pub open spec fn targets<T: SpeculativeModel>(
    target: &T,
    setting: Setting,
    context: Seq<i32>,
    candidates: Seq<i32>,
    target_rows: Seq<Seq<u32>>,
) -> bool {
    &&& target_rows.len() == candidates.len() + 1
    &&& forall|i: int|
        0 <= i <= candidates.len() ==> predicted(
            target,
            setting.vocabulary,
            context + candidates.take(i),
            #[trigger] target_rows[i],
        )
}

/// Each token is the answer to the candidate at its place; every candidate but one that the last
/// token replaces is accepted.
pub open spec fn answers<A: SamplingArithmetic>(
    arithmetic: &A,
    setting: Setting,
    candidates: Seq<i32>,
    shares: Seq<Vec<u64>>,
    target_rows: Seq<Seq<u32>>,
    tokens: Seq<i32>,
    states: Seq<Seq<u8>>,
    rejected: bool,
) -> bool {
    &&& tokens.len() <= candidates.len()
    &&& states.len() == tokens.len() + 1
    &&& rejected ==> tokens.len() > 0
    &&& forall|i: int| #![trigger tokens[i]]
        0 <= i < tokens.len() ==> verified(
            arithmetic,
            setting.sampling,
            states[i],
            candidates[i],
            shares[i]@,
            target_rows[i],
            tokens[i],
            !(rejected && i == tokens.len() - 1),
            states[i + 1],
        )
}

/// A round that may follow after `done` generated tokens.
pub open spec fn round_follows<T: SpeculativeModel, D: SpeculativeModel, A: SamplingArithmetic>(
    target: &T,
    draft: &D,
    arithmetic: &A,
    setting: Setting,
    done: nat,
    round: Round,
) -> bool {
    let n = round.candidates.len() as int;
    let k = round.tokens.len() as int;
    &&& block_complete(setting, done, round.candidates)
    &&& proposes(
        draft,
        arithmetic,
        setting,
        round.context,
        round.candidates,
        round.draft_rows,
        round.shares,
        round.proposal_states,
    )
    &&& targets(target, setting, round.context, round.candidates, round.target_rows)
    &&& round.answer_states.len() == k + 1
    &&& round.answer_states[0] == round.proposal_states[n]
    &&& round.replayed ==> round.rejected
    &&& if round.bonus() {
        &&& !round.rejected
        &&& answers(
            arithmetic,
            setting,
            round.candidates,
            round.shares,
            round.target_rows,
            round.tokens.drop_last(),
            round.answer_states.drop_last(),
            false,
        )
        &&& exists|shares: Seq<u64>| #[trigger]
            proposed(
                arithmetic,
                setting.sampling,
                round.answer_states[n],
                round.target_rows[n],
                round.tokens[n],
                shares,
                round.answer_states[n + 1],
            )
    } else {
        answers(
            arithmetic,
            setting,
            round.candidates,
            round.shares,
            round.target_rows,
            round.tokens,
            round.answer_states,
            round.rejected,
        )
    }
}

/// The tokens that rounds emitted.
pub open spec fn emitted(rounds: Seq<Round>) -> Seq<i32>
    decreases rounds.len(),
{
    if rounds.len() == 0 {
        Seq::empty()
    } else {
        emitted(rounds.drop_last()) + rounds.last().tokens
    }
}

/// The random generator after rounds that began with `start`.
pub open spec fn state_after(rounds: Seq<Round>, start: Seq<u8>) -> Seq<u8> {
    if rounds.len() == 0 {
        start
    } else {
        rounds.last().answer_states.last()
    }
}

/// Rounds that follow one another from the prompt on, every one but the last complete.
pub open spec fn rounds_follow<T: SpeculativeModel, D: SpeculativeModel, A: SamplingArithmetic>(
    target: &T,
    draft: &D,
    arithmetic: &A,
    setting: Setting,
    prompt: Seq<i32>,
    start: Seq<u8>,
    rounds: Seq<Round>,
) -> bool
    decreases rounds.len(),
{
    if rounds.len() == 0 {
        true
    } else {
        let earlier = rounds.drop_last();
        let round = rounds.last();
        &&& rounds_follow(target, draft, arithmetic, setting, prompt, start, earlier)
        &&& earlier.len() > 0 ==> earlier.last().complete()
        &&& round.context == prompt + emitted(earlier)
        &&& round.proposal_states[0] == state_after(earlier, start)
        &&& round_follows(target, draft, arithmetic, setting, emitted(earlier).len(), round)
    }
}

/// What rounds add up to.
#[verifier::ext_equal]
pub struct Tally {
    pub rounds: int,
    pub proposed: int,
    pub accepted: int,
    pub rejected: int,
    pub bonus: int,
    pub replayed: int,
}

/// Add up rounds.
pub open spec fn tally(rounds: Seq<Round>) -> Tally
    decreases rounds.len(),
{
    if rounds.len() == 0 {
        Tally { rounds: 0, proposed: 0, accepted: 0, rejected: 0, bonus: 0, replayed: 0 }
    } else {
        let earlier = tally(rounds.drop_last());
        let round = rounds.last();
        Tally {
            rounds: earlier.rounds + 1,
            proposed: earlier.proposed + round.candidates.len(),
            accepted: earlier.accepted + round.accepted(),
            rejected: earlier.rejected + if round.rejected {
                1int
            } else {
                0int
            },
            bonus: earlier.bonus + if round.bonus() {
                1int
            } else {
                0int
            },
            replayed: earlier.replayed + if round.replayed {
                round.tokens.len() as int
            } else {
                0int
            },
        }
    }
}

/// One more round.
pub proof fn lemma_push_round<T: SpeculativeModel, D: SpeculativeModel, A: SamplingArithmetic>(
    target: &T,
    draft: &D,
    arithmetic: &A,
    setting: Setting,
    prompt: Seq<i32>,
    start: Seq<u8>,
    rounds: Seq<Round>,
    round: Round,
)
    requires
        rounds_follow(target, draft, arithmetic, setting, prompt, start, rounds),
        rounds.len() > 0 ==> rounds.last().complete(),
        round.context == prompt + emitted(rounds),
        round.proposal_states[0] == state_after(rounds, start),
        round_follows(target, draft, arithmetic, setting, emitted(rounds).len(), round),
    ensures
        rounds_follow(target, draft, arithmetic, setting, prompt, start, rounds.push(round)),
        emitted(rounds.push(round)) == emitted(rounds) + round.tokens,
        state_after(rounds.push(round), start) == round.answer_states.last(),
        rounds.push(round).last() == round,
        ({
            let before = tally(rounds);
            let after = tally(rounds.push(round));
            &&& after.rounds == before.rounds + 1
            &&& after.proposed == before.proposed + round.candidates.len()
            &&& after.accepted == before.accepted + round.accepted()
            &&& after.rejected == before.rejected + if round.rejected {
                1int
            } else {
                0int
            }
            &&& after.bonus == before.bonus + if round.bonus() {
                1int
            } else {
                0int
            }
            &&& after.replayed == before.replayed + if round.replayed {
                round.tokens.len() as int
            } else {
                0int
            }
        }),
{
    assert(rounds.push(round).drop_last() =~= rounds);
}

/// Every emitted token is an accepted candidate, a correction or a bonus token.
pub proof fn law_every_token_is_accounted_for<
    T: SpeculativeModel,
    D: SpeculativeModel,
    A: SamplingArithmetic,
>(
    target: &T,
    draft: &D,
    arithmetic: &A,
    setting: Setting,
    prompt: Seq<i32>,
    start: Seq<u8>,
    rounds: Seq<Round>,
)
    requires
        rounds_follow(target, draft, arithmetic, setting, prompt, start, rounds),
    ensures
        tally(rounds).accepted + tally(rounds).rejected + tally(rounds).bonus == emitted(
            rounds,
        ).len(),
        tally(rounds).rounds == rounds.len(),
        tally(rounds).accepted + tally(rounds).rejected <= tally(rounds).proposed,
        tally(rounds).replayed <= emitted(rounds).len(),
    decreases rounds.len(),
{
    if rounds.len() > 0 {
        law_every_token_is_accounted_for(
            target,
            draft,
            arithmetic,
            setting,
            prompt,
            start,
            rounds.drop_last(),
        );
    }
}

/// The candidates before an emitted token are the tokens emitted before it in the round.
pub proof fn lemma_accepted_prefix<T: SpeculativeModel, D: SpeculativeModel, A: SamplingArithmetic>(
    target: &T,
    draft: &D,
    arithmetic: &A,
    setting: Setting,
    done: nat,
    round: Round,
    j: int,
)
    requires
        round_follows(target, draft, arithmetic, setting, done, round),
        0 <= j < round.tokens.len(),
    ensures
        round.candidates.take(j) == round.tokens.take(j),
{
    let told = if round.bonus() {
        round.tokens.drop_last()
    } else {
        round.tokens
    };
    assert forall|i: int| 0 <= i < j implies round.candidates[i] == #[trigger] round.tokens[i] by {
        assert(told[i] == round.tokens[i]);
    }
    assert(round.candidates.take(j) =~= round.tokens.take(j));
}

/// A greedy run emits, at every place, the greatest token of logits that the target returned after
/// reading exactly the prompt and the tokens emitted before: the draft has no part in the result.
pub proof fn law_greedy_speculation_follows_the_target<
    T: SpeculativeModel,
    D: SpeculativeModel,
    A: SamplingArithmetic,
>(
    target: &T,
    draft: &D,
    arithmetic: &A,
    setting: Setting,
    prompt: Seq<i32>,
    start: Seq<u8>,
    rounds: Seq<Round>,
    i: int,
)
    requires
        setting.sampling is None,
        rounds_follow(target, draft, arithmetic, setting, prompt, start, rounds),
        0 <= i < emitted(rounds).len(),
    ensures
        exists|row: Seq<u32>|
            predicted(target, setting.vocabulary, prompt + emitted(rounds).take(i), row)
                && #[trigger] greatest(row, emitted(rounds)[i]),
    decreases rounds.len(),
{
    let earlier = rounds.drop_last();
    let round = rounds.last();
    let done = emitted(earlier).len();
    if i < done {
        law_greedy_speculation_follows_the_target(
            target,
            draft,
            arithmetic,
            setting,
            prompt,
            start,
            earlier,
            i,
        );
        assert(emitted(rounds).take(i) =~= emitted(earlier).take(i));
        assert(emitted(rounds)[i] == emitted(earlier)[i]);
    } else {
        let j = i - done;
        lemma_accepted_prefix(target, draft, arithmetic, setting, done, round, j);
        assert(prompt + emitted(rounds).take(i) =~= round.context + round.candidates.take(j));
        let row = round.target_rows[j];
        assert(predicted(target, setting.vocabulary, round.context + round.candidates.take(j), row));
        assert(emitted(rounds)[i] == round.tokens[j]);
        let told = if round.bonus() {
            round.tokens.drop_last()
        } else {
            round.tokens
        };
        if j < told.len() {
            assert(told[j] == round.tokens[j]);
        }
        assert(greatest(row, round.tokens[j]));
    }
}

/// In any run every emitted token answers logits that the target returned after reading exactly the
/// prompt and the tokens emitted before: as the answer to a candidate that the draft proposed from
/// the same context, or as a proposal of the target's own.
pub proof fn law_emitted_tokens_are_verified<
    T: SpeculativeModel,
    D: SpeculativeModel,
    A: SamplingArithmetic,
>(
    target: &T,
    draft: &D,
    arithmetic: &A,
    setting: Setting,
    prompt: Seq<i32>,
    start: Seq<u8>,
    rounds: Seq<Round>,
    i: int,
)
    requires
        rounds_follow(target, draft, arithmetic, setting, prompt, start, rounds),
        0 <= i < emitted(rounds).len(),
    ensures
        exists|choice: Choice| #[trigger]
            chosen(
                target,
                draft,
                arithmetic,
                setting,
                prompt + emitted(rounds).take(i),
                emitted(rounds)[i],
                choice,
            ),
    decreases rounds.len(),
{
    let earlier = rounds.drop_last();
    let round = rounds.last();
    let done = emitted(earlier).len();
    if i < done {
        law_emitted_tokens_are_verified(
            target,
            draft,
            arithmetic,
            setting,
            prompt,
            start,
            earlier,
            i,
        );
        assert(emitted(rounds).take(i) =~= emitted(earlier).take(i));
        assert(emitted(rounds)[i] == emitted(earlier)[i]);
    } else {
        let j = i - done;
        lemma_accepted_prefix(target, draft, arithmetic, setting, done, round, j);
        let context = round.context + round.candidates.take(j);
        assert(prompt + emitted(rounds).take(i) =~= context);
        assert(predicted(target, setting.vocabulary, context, round.target_rows[j]));
        assert(emitted(rounds)[i] == round.tokens[j]);
        if round.bonus() && j == round.candidates.len() {
            let shares = choose|shares: Seq<u64>| #[trigger]
                proposed(
                    arithmetic,
                    setting.sampling,
                    round.answer_states[j],
                    round.target_rows[j],
                    round.tokens[j],
                    shares,
                    round.answer_states[j + 1],
                );
            let choice = Choice::Own {
                row: round.target_rows[j],
                shares,
                before: round.answer_states[j],
                after: round.answer_states[j + 1],
            };
            assert(chosen(target, draft, arithmetic, setting, context, round.tokens[j], choice));
        } else {
            let told = if round.bonus() {
                round.tokens.drop_last()
            } else {
                round.tokens
            };
            assert(told[j] == round.tokens[j]);
            let accepted = !(round.rejected && j == told.len() - 1);
            let choice = Choice::Answer {
                candidate: round.candidates[j],
                draft_row: round.draft_rows[j],
                shares: round.shares[j]@,
                proposing: round.proposal_states[j],
                proposal: round.proposal_states[j + 1],
                row: round.target_rows[j],
                accepted,
                before: round.answer_states[j],
                after: round.answer_states[j + 1],
            };
            assert(chosen(target, draft, arithmetic, setting, context, round.tokens[j], choice));
        }
    }
}

/// How one token came about.
#[verifier::ext_equal]
pub enum Choice {
    /// The answer to a candidate.
    Answer {
        candidate: i32,
        draft_row: Seq<u32>,
        shares: Seq<u64>,
        proposing: Seq<u8>,
        proposal: Seq<u8>,
        row: Seq<u32>,
        accepted: bool,
        before: Seq<u8>,
        after: Seq<u8>,
    },
    /// A proposal from the target's own logits.
    Own { row: Seq<u32>, shares: Seq<u64>, before: Seq<u8>, after: Seq<u8> },
}

/// A token after `context` came about in this way.
pub open spec fn chosen<T: SpeculativeModel, D: SpeculativeModel, A: SamplingArithmetic>(
    target: &T,
    draft: &D,
    arithmetic: &A,
    setting: Setting,
    context: Seq<i32>,
    token: i32,
    choice: Choice,
) -> bool {
    match choice {
        Choice::Answer {
            candidate,
            draft_row,
            shares,
            proposing,
            proposal,
            row,
            accepted,
            before,
            after,
        } => {
            &&& predicted(draft, setting.vocabulary, context, draft_row)
            &&& proposed(
                arithmetic,
                setting.sampling,
                proposing,
                draft_row,
                candidate,
                shares,
                proposal,
            )
            &&& predicted(target, setting.vocabulary, context, row)
            &&& verified(
                arithmetic,
                setting.sampling,
                before,
                candidate,
                shares,
                row,
                token,
                accepted,
                after,
            )
        },
        Choice::Own { row, shares, before, after } => {
            &&& predicted(target, setting.vocabulary, context, row)
            &&& proposed(arithmetic, setting.sampling, before, row, token, shares, after)
        },
    }
}

} // verus!
