//! What calibration decides, from what replays and the controller answer.

use crate::autotune::{
    calibrated, plan_mode, prompt_bytes, replayed, selected, token_bytes, validate_outputs,
    warm_outcome, warmed, FailureKind, GenerationPlan, TuneFailure,
};
use crate::generation::{GenerationError, TokenGenerationOutput};
use crate::runtime::KernelMode;
use vstd::prelude::*;

verus! {

/// A replay after which the device did not come to rest counts as a failure of the device, whatever
/// it returned; one that was refused is rejected; and any other stands as it is.
pub proof fn law_replays_need_a_device_at_rest(
    result: Result<TokenGenerationOutput, GenerationError>,
    fenced: Result<(), String>,
    outcome: Result<TokenGenerationOutput, TuneFailure>,
)
    requires
        call_ensures(replayed, (result, fenced), outcome),
    ensures
        fenced is Err ==> (outcome matches Err(failure) && failure.kind == FailureKind::Device),
        fenced is Ok && result is Err ==> (outcome matches Err(failure) && failure.kind
            == FailureKind::Rejected),
        fenced is Ok && result is Ok ==> outcome is Ok && outcome->Ok_0 == result->Ok_0,
{
}

/// Two plans agree if and only if they returned the same tokens and stopped for the same reason.
pub proof fn law_plans_agree_on_every_token(
    expected: &TokenGenerationOutput,
    actual: &TokenGenerationOutput,
    result: Result<(), TuneFailure>,
)
    requires
        call_ensures(validate_outputs, (expected, actual), result),
    ensures
        result is Ok <==> {
            &&& expected.token_ids@.len() == actual.token_ids@.len()
            &&& forall|i: int|
                0 <= i < expected.token_ids@.len() ==> #[trigger] expected.token_ids@[i]
                    == actual.token_ids@[i]
            &&& expected.generated_token_ids@.len() == actual.generated_token_ids@.len()
            &&& forall|i: int|
                0 <= i < expected.generated_token_ids@.len()
                    ==> #[trigger] expected.generated_token_ids@[i]
                    == actual.generated_token_ids@[i]
            &&& expected.stopped_on_eos == actual.stopped_on_eos
        },
{
    if (forall|i: int|
        0 <= i < expected.token_ids@.len() ==> #[trigger] expected.token_ids@[i]
            == actual.token_ids@[i]) && expected.token_ids@.len() == actual.token_ids@.len() {
        assert(expected.token_ids@ =~= actual.token_ids@);
    }
    if (forall|i: int|
        0 <= i < expected.generated_token_ids@.len() ==> #[trigger] expected.generated_token_ids@[i]
            == actual.generated_token_ids@[i]) && expected.generated_token_ids@.len()
        == actual.generated_token_ids@.len() {
        assert(expected.generated_token_ids@ =~= actual.generated_token_ids@);
    }
}

/// There are two plans: the first portable, the second automatic.
pub proof fn law_there_are_two_plans(index: usize, result: Result<KernelMode, TuneFailure>)
    requires
        call_ensures(plan_mode, (index,), result),
    ensures
        index == 0 <==> (result matches Ok(mode) && mode == KernelMode::Portable),
        index == 1 <==> (result matches Ok(mode) && mode == KernelMode::Automatic),
        index > 1 <==> result is Err,
{
}

/// Calibration returns the mode that the controller chose. Where it replays, the portable plan has
/// succeeded, and the automatic one is held to be eligible unless it was safely refused: no failure
/// of the device is passed over.
pub proof fn law_calibration_passes_over_no_device_failure<
    P: Fn(usize) -> Result<TokenGenerationOutput, TuneFailure>,
    D: FnOnce() -> String,
    S: FnOnce(bool, &str) -> Result<usize, TuneFailure>,
>(enabled: bool, replay: P, fingerprint: D, select: S, plan: GenerationPlan)
    requires
        calibrated(enabled, replay, fingerprint, select, Ok(plan)),
    ensures
        plan.decision == 0 ==> plan.mode == KernelMode::Portable,
        plan.decision != 0 ==> plan.mode == KernelMode::Automatic,
        call_ensures(fingerprint, (), plan.lower_level_fingerprint),
        enabled ==> exists|output: TokenGenerationOutput| #[trigger]
            call_ensures(replay, (0usize,), Ok(output)),
        exists|eligible: bool, name: &str|
            {
                &&& #[trigger] call_ensures(select, (eligible, name), Ok(plan.decision))
                &&& name@ == plan.lower_level_fingerprint@
                &&& !enabled ==> eligible
                &&& enabled && eligible ==> exists|output: TokenGenerationOutput| #[trigger]
                    call_ensures(replay, (1usize,), Ok(output))
                &&& enabled && !eligible ==> exists|failure: TuneFailure| #[trigger]
                    call_ensures(replay, (1usize,), Err(failure)) && failure.kind
                        != FailureKind::Device
            },
{
    if enabled {
        let (portable, automatic) = choose|
            portable: Result<TokenGenerationOutput, TuneFailure>,
            automatic: Result<TokenGenerationOutput, TuneFailure>,
        | #[trigger]
            warm_outcome(replay, portable, automatic) && match warmed(
                portable,
                automatic,
            ) {
                Err(message) => false,
                Ok(eligible) => selected(
                    eligible,
                    fingerprint,
                    select,
                    Ok::<GenerationPlan, GenerationError>(plan),
                ),
            };
        assert(portable == Ok::<TokenGenerationOutput, TuneFailure>(portable->Ok_0));
        if automatic is Ok {
            assert(automatic == Ok::<TokenGenerationOutput, TuneFailure>(automatic->Ok_0));
        } else {
            assert(automatic == Err::<TokenGenerationOutput, TuneFailure>(automatic->Err_0));
        }
    }
}

/// The bytes from which the digest of a prompt is taken are those of its tokens in order, four of
/// each, the least significant first; so two prompts with the same bytes are the same prompt.
pub proof fn law_prompts_have_their_own_bytes(a: Seq<i32>, b: Seq<i32>)
    ensures
        prompt_bytes(a).len() == 4 * a.len(),
        forall|i: int|
            #![trigger a[i]]
            0 <= i < a.len() ==> {
                let bits = a[i] as u32;
                &&& prompt_bytes(a)[4 * i] == bits % 256
                &&& prompt_bytes(a)[4 * i + 1] == bits / 256 % 256
                &&& prompt_bytes(a)[4 * i + 2] == bits / 65536 % 256
                &&& prompt_bytes(a)[4 * i + 3] == bits / 16777216
            },
        prompt_bytes(a) == prompt_bytes(b) ==> a == b,
{
    lemma_bytes(a);
    lemma_bytes(b);
    if prompt_bytes(a) == prompt_bytes(b) {
        assert forall|i: int| 0 <= i < a.len() implies a[i] == b[i] by {
            assert(a[i] as u32 % 256 == b[i] as u32 % 256);
            assert(a[i] as u32 / 256 % 256 == b[i] as u32 / 256 % 256);
            assert(a[i] as u32 / 65536 % 256 == b[i] as u32 / 65536 % 256);
            assert(a[i] as u32 / 16777216 == b[i] as u32 / 16777216);
            lemma_same_token(a[i], b[i]);
        }
        assert(a =~= b);
    }
}

/// A token is known by its four bytes.
proof fn lemma_same_token(a: i32, b: i32)
    by (bit_vector)
    requires
        a as u32 % 256 == b as u32 % 256,
        a as u32 / 256 % 256 == b as u32 / 256 % 256,
        a as u32 / 65536 % 256 == b as u32 / 65536 % 256,
        a as u32 / 16777216 == b as u32 / 16777216,
    ensures
        a == b,
{
}

proof fn lemma_bytes(a: Seq<i32>)
    ensures
        prompt_bytes(a).len() == 4 * a.len(),
        forall|i: int|
            #![trigger a[i]]
            0 <= i < a.len() ==> {
                let bits = a[i] as u32;
                &&& prompt_bytes(a)[4 * i] == bits % 256
                &&& prompt_bytes(a)[4 * i + 1] == bits / 256 % 256
                &&& prompt_bytes(a)[4 * i + 2] == bits / 65536 % 256
                &&& prompt_bytes(a)[4 * i + 3] == bits / 16777216
            },
    decreases a.len(),
{
    if a.len() > 0 {
        let fewer = a.drop_last();
        lemma_bytes(fewer);
        let last = token_bytes(a.last());
        assert forall|i: int|
            #![trigger a[i]]
            0 <= i < a.len() implies {
            let bits = a[i] as u32;
            &&& prompt_bytes(a)[4 * i] == bits % 256
            &&& prompt_bytes(a)[4 * i + 1] == bits / 256 % 256
            &&& prompt_bytes(a)[4 * i + 2] == bits / 65536 % 256
            &&& prompt_bytes(a)[4 * i + 3] == bits / 16777216
        } by {
            if i < fewer.len() {
                assert(fewer[i] == a[i]);
            }
        }
    }
}

} // verus!
