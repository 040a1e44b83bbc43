//! Offline/startup calibration of COMPLETE packed generation plans.
//!
//! Call once for a representative workload, then apply the returned `KernelMode` to normal
//! generation. Calibration intentionally replays requests; it is not a per-token hot path.

use crate::generation::{GenerationError, GreedyGenerationConfig, TokenGenerationOutput};
use crate::runtime::KernelMode;
use crate::text::text;
use vstd::prelude::*;

verus! {

/// How a trial failed.
#[derive(Debug, Clone, Copy, PartialEq, Eq, Structural)]
pub enum FailureKind {
    /// The trial itself makes no sense.
    Invalid,
    /// The trial completed safely, and its plan is not usable.
    Rejected,
    /// The device may not have completed the trial.
    Device,
}

#[derive(Debug)]
pub struct TuneFailure {
    pub kind: FailureKind,
    pub message: String,
}

/// What tuning a workload decided.
#[derive(Debug)]
pub struct GenerationPlan {
    pub mode: KernelMode,
    /// The index of the plan that was chosen.
    pub decision: usize,
    /// Recalibrate after lower-level kernel decisions change. The snapshot is conservative:
    /// unrelated new workloads in the same controller can also invalidate it.
    pub lower_level_fingerprint: String,
}

impl GenerationPlan {
    /// Whether the decisions of lower levels still are what they were.
    pub fn lower_levels_unchanged(&self, fingerprint: &String) -> (unchanged: bool)
        ensures
            unchanged == (self.lower_level_fingerprint@ == fingerprint@),
    {
        self.lower_level_fingerprint == *fingerprint
    }
}

/// The mode of a plan.
pub open spec fn mode_of(index: int) -> Option<KernelMode> {
    if index == 0 {
        Some(KernelMode::Portable)
    } else if index == 1 {
        Some(KernelMode::Automatic)
    } else {
        None
    }
}

/// The mode of a plan.
pub fn plan_mode(index: usize) -> (result: Result<KernelMode, TuneFailure>)
    ensures
        match (mode_of(index as int), result) {
            (Some(mode), Ok(found)) => found == mode,
            (None, Err(failure)) => failure.kind is Invalid && failure.message@
                == "unknown packed generation plan"@,
            _ => false,
        },
{
    if index == 0 {
        Ok(KernelMode::Portable)
    } else if index == 1 {
        Ok(KernelMode::Automatic)
    } else {
        Err(
            TuneFailure {
                kind: FailureKind::Invalid,
                message: text("unknown packed generation plan"),
            },
        )
    }
}

/// What a replay comes to. Generation creates a fresh cache for EVERY replay and synchronizes on
/// success; `fenced` is what a further fence gave before it is decided whether another isolated
/// trial is safe.
pub fn replayed(
    result: Result<TokenGenerationOutput, GenerationError>,
    fenced: Result<(), String>,
) -> (outcome: Result<TokenGenerationOutput, TuneFailure>)
    ensures
        match (fenced, result, outcome) {
            (Err(reason), _, Err(failure)) => failure.kind is Device && failure.message@
                == "generation replay did not complete: "@ + reason@,
            (Ok(_), Err(error), Err(failure)) => failure.kind is Rejected && failure.message@
                == error.0@,
            (Ok(_), Ok(output), Ok(found)) => found == output,
            _ => false,
        },
{
    match fenced {
        Err(reason) => {
            let mut message = text("generation replay did not complete: ");
            message.append(reason.as_str());
            Err(TuneFailure { kind: FailureKind::Device, message })
        },
        Ok(_) => match result {
            Ok(output) => Ok(output),
            Err(error) => Err(
                TuneFailure { kind: FailureKind::Rejected, message: error.to_string() },
            ),
        },
    }
}

/// Two outputs with the same tokens and stopping behavior.
pub open spec fn same_output(x: TokenGenerationOutput, y: TokenGenerationOutput) -> bool {
    &&& x.token_ids@ == y.token_ids@
    &&& x.generated_token_ids@ == y.generated_token_ids@
    &&& x.stopped_on_eos == y.stopped_on_eos
}

fn equal_tokens(left: &[i32], right: &[i32]) -> (same: bool)
    ensures
        same == (left@ == right@),
{
    if left.len() != right.len() {
        return false;
    }
    let mut i: usize = 0;
    while i < left.len()
        invariant
            i <= left@.len() == right@.len(),
            forall|j: int| 0 <= j < i ==> left@[j] == right@[j],
        decreases left@.len() - i,
    {
        if left[i] != right[i] {
            return false;
        }
        i += 1;
    }
    assert(left@ =~= right@);
    true
}

/// Compare the outputs of two plans. This is exact OUTPUT-TOKEN equivalence on the calibration
/// workload, not a proof that all model logits equal a high precision oracle for all possible
/// prompts.
pub fn validate_outputs(expected: &TokenGenerationOutput, actual: &TokenGenerationOutput) -> (result:
    Result<(), TuneFailure>)
    ensures
        match result {
            Ok(_) => same_output(*expected, *actual),
            Err(failure) => !same_output(*expected, *actual) && failure.kind is Rejected
                && failure.message@
                == "complete generation plans disagree on token ids or stopping behavior"@,
        },
{
    if equal_tokens(&expected.token_ids, &actual.token_ids) && equal_tokens(
        &expected.generated_token_ids,
        &actual.generated_token_ids,
    ) && expected.stopped_on_eos == actual.stopped_on_eos {
        Ok(())
    } else {
        Err(
            TuneFailure {
                kind: FailureKind::Rejected,
                message: text(
                    "complete generation plans disagree on token ids or stopping behavior",
                ),
            },
        )
    }
}

/// What is wrong with a request for calibration: with the workload, with how the controller
/// measures, or with the controller not being the one that lower levels share.
pub open spec fn calibration_error(
    model_revision: Seq<char>,
    prompt: Seq<i32>,
    max_new_tokens: usize,
    end_to_end: bool,
    shared: bool,
) -> Option<Seq<char>> {
    if model_revision.len() == 0 || prompt.len() == 0 || max_new_tokens == 0 {
        Some(
            "calibration requires an immutable model revision, prompt and nonzero generation length"@,
        )
    } else if !end_to_end {
        Some("complete generation calibration requires EndToEnd timing"@)
    } else if !shared {
        Some(
            "use the controller returned by enable_stack_autotune so lower-level decisions are shared"@,
        )
    } else {
        None
    }
}

/// The four bytes of a token, least significant first.
pub open spec fn token_bytes(token: i32) -> Seq<u8> {
    let bits = token as u32;
    seq![
        (bits % 256) as u8,
        (bits / 256 % 256) as u8,
        (bits / 65536 % 256) as u8,
        (bits / 16777216) as u8,
    ]
}

/// The bytes of tokens.
pub open spec fn prompt_bytes(prompt: Seq<i32>) -> Seq<u8>
    decreases prompt.len(),
{
    if prompt.len() == 0 {
        Seq::empty()
    } else {
        prompt_bytes(prompt.drop_last()) + token_bytes(prompt.last())
    }
}

/// The bytes of a prompt, from which its digest is taken.
pub fn encode_prompt(prompt: &[i32]) -> (bytes: Vec<u8>)
    ensures
        bytes@ == prompt_bytes(prompt@),
{
    let mut bytes: Vec<u8> = Vec::new();
    let mut i: usize = 0;
    assert(prompt@.take(0) =~= Seq::<i32>::empty());
    while i < prompt.len()
        invariant
            i <= prompt@.len(),
            bytes@ == prompt_bytes(prompt@.take(i as int)),
        decreases prompt@.len() - i,
    {
        let bits: u32 = prompt[i] as u32;
        let ghost before = bytes@;
        bytes.push((bits % 256) as u8);
        bytes.push((bits / 256 % 256) as u8);
        bytes.push((bits / 65536 % 256) as u8);
        bytes.push((bits / 16777216) as u8);
        proof {
            assert(bytes@ =~= before + token_bytes(prompt@[i as int]));
            assert(prompt@.take(i + 1).drop_last() =~= prompt@.take(i as int));
        }
        i += 1;
    }
    assert(prompt@.take(i as int) =~= prompt@);
    bytes
}

/// What warming both plans comes to: whether the optimized plan stays in the race, or why
/// calibration stops. Unknown device failures abort; only safely completed rejections disqualify
/// the optimized plan.
pub open spec fn warmed(
    portable: Result<TokenGenerationOutput, TuneFailure>,
    automatic: Result<TokenGenerationOutput, TuneFailure>,
) -> Result<bool, Seq<char>> {
    match (portable, automatic) {
        (Err(failure), _) => Err(failure.message@),
        (Ok(_), Err(failure)) => if failure.kind is Device {
            Err(failure.message@)
        } else {
            Ok(false)
        },
        (Ok(_), Ok(_)) => Ok(true),
    }
}

/// What calibration comes to once its request is in order: lower levels are warmed where tuning is
/// enabled, then their fingerprint is taken, then a plan is selected.
pub open spec fn calibrated<
    P: Fn(usize) -> Result<TokenGenerationOutput, TuneFailure>,
    D: FnOnce() -> String,
    S: FnOnce(bool, &str) -> Result<usize, TuneFailure>,
>(
    enabled: bool,
    replay: P,
    fingerprint: D,
    select: S,
    result: Result<GenerationPlan, GenerationError>,
) -> bool {
    if enabled {
        exists|
            portable: Result<TokenGenerationOutput, TuneFailure>,
            automatic: Result<TokenGenerationOutput, TuneFailure>,
        | #[trigger]
            warm_outcome(replay, portable, automatic) && match warmed(portable, automatic) {
                Err(message) => result matches Err(error) && error.0@ == message,
                Ok(eligible) => selected(eligible, fingerprint, select, result),
            }
    } else {
        selected(true, fingerprint, select, result)
    }
}

/// What replaying both plans gave; the second is not replayed where the first failed.
pub open spec fn warm_outcome<P: Fn(usize) -> Result<TokenGenerationOutput, TuneFailure>>(
    replay: P,
    portable: Result<TokenGenerationOutput, TuneFailure>,
    automatic: Result<TokenGenerationOutput, TuneFailure>,
) -> bool {
    &&& call_ensures(replay, (0usize,), portable)
    &&& portable is Ok ==> call_ensures(replay, (1usize,), automatic)
}

/// A plan was selected under the fingerprint of the lower levels.
pub open spec fn selected<
    D: FnOnce() -> String,
    S: FnOnce(bool, &str) -> Result<usize, TuneFailure>,
>(
    eligible: bool,
    fingerprint: D,
    select: S,
    result: Result<GenerationPlan, GenerationError>,
) -> bool {
    exists|dependency: String, choice: Result<usize, TuneFailure>|
        #![trigger chose(select, eligible, dependency, choice)]
        call_ensures(fingerprint, (), dependency) && chose(select, eligible, dependency, choice)
            && match (choice, result) {
            (Ok(index), Ok(plan)) => plan.decision == index && plan.lower_level_fingerprint
                == dependency && plan.mode == if index == 0 {
                KernelMode::Portable
            } else {
                KernelMode::Automatic
            },
            (Err(failure), Err(error)) => error.0@ == failure.message@,
            _ => false,
        }
}

/// What selecting a plan gave.
pub open spec fn chose<S: FnOnce(bool, &str) -> Result<usize, TuneFailure>>(
    select: S,
    eligible: bool,
    dependency: String,
    choice: Result<usize, TuneFailure>,
) -> bool {
    exists|name: &str| #[trigger]
        call_ensures(select, (eligible, name), choice) && name@ == dependency@
}

/// Calibrate portable vs capability-gated packed generation using a shared controller.
/// `model_revision` must identify immutable WEIGHTS (e.g. a content digest), not just a path.
/// `end_to_end`, `shared` and `enabled` describe the controller: that it measures whole requests,
/// that lower levels use it too, and that it tunes. `replay` runs the request with one of the two
/// plans, `fingerprint` says what the lower levels decided, and `select` chooses between the plans,
/// given whether the optimized one is eligible. Do not call this function per request.
pub fn calibrate_greedy_packed<
    P: Fn(usize) -> Result<TokenGenerationOutput, TuneFailure>,
    D: FnOnce() -> String,
    S: FnOnce(bool, &str) -> Result<usize, TuneFailure>,
>(
    model_revision: &str,
    prompt: &[i32],
    generation: &GreedyGenerationConfig,
    end_to_end: bool,
    shared: bool,
    enabled: bool,
    replay: P,
    fingerprint: D,
    select: S,
) -> (result: Result<GenerationPlan, GenerationError>)
    requires
        call_requires(replay, (0usize,)),
        call_requires(replay, (1usize,)),
        call_requires(fingerprint, ()),
        forall|eligible: bool, dependency: &str|
            call_requires(select, (eligible, dependency)),
    ensures
        match calibration_error(
            model_revision@,
            prompt@,
            generation.max_new_tokens,
            end_to_end,
            shared,
        ) {
            Some(message) => result matches Err(error) && error.0@ == message,
            None => calibrated(enabled, replay, fingerprint, select, result),
        },
{
    let revision_length: usize = model_revision.unicode_len();
    if revision_length == 0 || prompt.len() == 0 || generation.max_new_tokens == 0 {
        return Err(
            GenerationError(
                text(
                    "calibration requires an immutable model revision, prompt and nonzero generation length",
                ),
            ),
        );
    }
    if !end_to_end {
        return Err(
            GenerationError(text("complete generation calibration requires EndToEnd timing")),
        );
    }
    if !shared {
        return Err(
            GenerationError(
                text(
                    "use the controller returned by enable_stack_autotune so lower-level decisions are shared",
                ),
            ),
        );
    }
    let mut eligible = true;
    let ghost mut warm = (
        arbitrary::<Result<TokenGenerationOutput, TuneFailure>>(),
        arbitrary::<Result<TokenGenerationOutput, TuneFailure>>(),
    );
    if enabled {
        let portable = replay(0);
        proof {
            warm = (portable, warm.1);
        }
        if let Err(failure) = portable {
            assert(warm_outcome(replay, warm.0, warm.1));
            return Err(GenerationError(failure.message));
        }
        let automatic = replay(1);
        proof {
            warm = (warm.0, automatic);
        }
        assert(warm_outcome(replay, warm.0, warm.1));
        if let Err(failure) = automatic {
            match failure.kind {
                FailureKind::Device => {
                    return Err(GenerationError(failure.message));
                },
                _ => {
                    eligible = false;
                },
            }
        }
    }
    let dependency = fingerprint();
    let choice = select(eligible, dependency.as_str());
    let ghost chosen = choice;
    assert(chose(select, eligible, dependency, chosen));
    match choice {
        Ok(index) => {
            let mode = if index == 0 {
                KernelMode::Portable
            } else {
                KernelMode::Automatic
            };
            Ok(GenerationPlan { mode, decision: index, lower_level_fingerprint: dependency })
        },
        Err(failure) => Err(GenerationError(failure.message)),
    }
}

} // verus!
