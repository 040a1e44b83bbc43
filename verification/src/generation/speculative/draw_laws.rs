//! How speculative decoding goes through the draws of a generator.

use crate::generation::sampling::SamplingArithmetic;
use crate::generation::speculative::branch::{predicted, SpeculativeModel};
use crate::generation::speculative::rounds::{answers, emitted, rounds_follow, Round, Setting};
use crate::generation::speculative::selection::{draws, filters_to, proposed, verified};
use crate::rng::chacha12_next;
use vstd::prelude::*;

verus! {

/// The state of a generator after its next draw.
pub open spec fn next_state(state: Seq<u8>) -> Seq<u8> {
    chacha12_next(state).1
}

/// One draw for each candidate of a round, then one for each answer, and one more for a token that
/// replaces a candidate; no draw is used twice and none is left out.
pub open spec fn draws_in_turn(round: Round) -> bool {
    let n = round.candidates.len() as int;
    let k = round.tokens.len() as int;
    &&& round.proposal_states.len() == n + 1
    &&& round.answer_states.len() == k + 1
    &&& forall|i: int|
        0 <= i < n ==> #[trigger] round.proposal_states[i + 1] == next_state(
            round.proposal_states[i],
        )
    &&& round.answer_states[0] == round.proposal_states[n]
    &&& forall|i: int|
        0 <= i < k ==> #[trigger] round.answer_states[i + 1] == if round.rejected && i == k - 1 {
            next_state(next_state(round.answer_states[i]))
        } else {
            next_state(round.answer_states[i])
        }
}

/// Speculative sampling goes through the draws of its generator in turn, from one round to the next.
/// A round goes on from what the rounds before it emitted. Its tokens are its candidates, but for
/// the last one where that was rejected; where none was, and the round goes one further, that token
/// is drawn from the target's own probabilities after all of them.
pub proof fn law_every_draw_is_used_once<
    T: SpeculativeModel,
    D: SpeculativeModel,
    A: SamplingArithmetic,
>(
    target: &T,
    draft: &D,
    arithmetic: &A,
    setting: Setting,
    prompt: Seq<i32>,
    start: Seq<u8>,
    rounds: Seq<Round>,
    r: int,
)
    requires
        rounds_follow(target, draft, arithmetic, setting, prompt, start, rounds),
        setting.sampling is Some,
        0 <= r < rounds.len(),
    ensures
        ({
            let round = rounds[r];
            let n = round.candidates.len() as int;
            let k = round.tokens.len() as int;
            let context = prompt + emitted(rounds.take(r));
            &&& round.proposal_states[0] == if r == 0 {
                start
            } else {
                rounds[r - 1].answer_states[rounds[r - 1].answer_states.len() - 1]
            }
            &&& draws_in_turn(round)
            &&& 0 < n <= setting.draft_tokens
            &&& k <= n + 1
            &&& forall|i: int|
                0 <= i < k && i < n && !(round.rejected && i == k - 1)
                    ==> #[trigger] round.tokens[i] == round.candidates[i]
            &&& forall|i: int|
                0 <= i <= n ==> predicted(
                    target,
                    setting.vocabulary,
                    context + round.candidates.take(i),
                    #[trigger] round.target_rows[i],
                )
            &&& k == n + 1 ==> !round.rejected && exists|shares: Seq<u64>| #[trigger]
                filters_to(arithmetic, setting.sampling->0, round.target_rows[n], shares) && draws(
                    arithmetic,
                    round.answer_states[n],
                    shares,
                    round.tokens[n],
                )
        }),
    decreases rounds.len(),
{
    let earlier = rounds.drop_last();
    if r < rounds.len() - 1 {
        law_every_draw_is_used_once(target, draft, arithmetic, setting, prompt, start, earlier, r);
        assert(earlier.take(r) =~= rounds.take(r));
        assert(earlier[r] == rounds[r]);
    } else {
        assert(earlier =~= rounds.take(r));
        let round = rounds[r];
        let n = round.candidates.len() as int;
        let k = round.tokens.len() as int;
        assert forall|i: int| 0 <= i < n implies #[trigger] round.proposal_states[i + 1]
            == next_state(round.proposal_states[i]) by {
            assert(round.draft_rows[i].len() >= 0);
            assert(proposed(
                arithmetic,
                setting.sampling,
                round.proposal_states[i],
                round.draft_rows[i],
                round.candidates[i],
                round.shares[i]@,
                round.proposal_states[i + 1],
            ));
        }
        let (tokens, states) = if round.bonus() {
            (round.tokens.drop_last(), round.answer_states.drop_last())
        } else {
            (round.tokens, round.answer_states)
        };
        assert(answers(
            arithmetic,
            setting,
            round.candidates,
            round.shares,
            round.target_rows,
            tokens,
            states,
            round.rejected,
        ));
        assert forall|i: int| 0 <= i < tokens.len() implies #[trigger] states[i + 1] == (
        if round.rejected && i == tokens.len() - 1 {
            next_state(next_state(states[i]))
        } else {
            next_state(states[i])
        }) && (!(round.rejected && i == tokens.len() - 1) ==> tokens[i] == round.candidates[i]) by {
            assert(tokens[i] == tokens[i]);
            assert(verified(
                arithmetic,
                setting.sampling,
                states[i],
                round.candidates[i],
                round.shares[i]@,
                round.target_rows[i],
                tokens[i],
                !(round.rejected && i == tokens.len() - 1),
                states[i + 1],
            ));
        }
        assert forall|i: int| 0 <= i < k implies #[trigger] round.answer_states[i + 1]
            == if round.rejected && i == k - 1 {
            next_state(next_state(round.answer_states[i]))
        } else {
            next_state(round.answer_states[i])
        } by {
            if i < tokens.len() {
                assert(states[i + 1] == round.answer_states[i + 1]);
            }
        }
        assert forall|i: int|
            0 <= i < k && i < n && !(round.rejected && i == k - 1) implies #[trigger] round.tokens[i]
            == round.candidates[i] by {
            assert(tokens[i] == round.tokens[i]);
            assert(states[i + 1] == round.answer_states[i + 1]);
        }
        if r > 0 {
            assert(earlier.last() == rounds[r - 1]);
        }
    }
}

} // verus!
