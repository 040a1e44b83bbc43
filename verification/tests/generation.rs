use rullm::autotune::{
    calibrate_greedy_packed, encode_prompt, plan_mode, replayed, validate_outputs, FailureKind,
    TuneFailure,
};
use rullm::backends::{cuda_driver_api_version, validate_cuda_driver};
use rullm::generation::sampling::SamplingArithmetic;
use rullm::generation::variants::{device_greedy_token, ArgmaxAnswer};
use rullm::generation::GreedyOnly;
use rullm::logits::LogitBlock;
use rullm::runtime::{checked_argmax, KernelMode, RuntimeError, RuntimeErrorKind};
use rullm::{
    generate_causal_greedy, generate_causal_sampled, generate_causal_sampled_stream,
    generate_causal_speculative, generate_causal_speculative_stream, generate_greedy,
    generate_greedy_awq, generate_greedy_packed, generate_greedy_packed_ruda, generate_sampled,
    generate_sampled_awq, generate_sampled_packed, generate_sampled_packed_ruda, CausalModel,
    CausalModelLimits, ContinuousBatchConfig, ContinuousBatchScheduler, DeviceBatchExecutor,
    DeviceBatchModel, GenerationCancellation, GenerationControl, GenerationError,
    GenerationFinishReason, GreedyGenerationConfig, LlamaConfig, PagedKvCacheConfig, SamplingConfig,
    SamplingGenerationConfig, ScheduledBatch, SpeculativeGenerationConfig, SpeculativeModel,
    TokenGenerationOutput,
};
use std::collections::BTreeMap;
use std::ops::ControlFlow;

/// IEEE double-precision arithmetic on bit patterns.
struct Floats;

fn widened(values: &[u64]) -> Vec<f64> {
    values.iter().map(|&bits| f64::from_bits(bits)).collect()
}

impl SamplingArithmetic for Floats {
    fn exponential(&self, temperature: u64, logit: u32, maximum: u32) -> u64 {
        let difference = f32::from_bits(logit) as f64 - f32::from_bits(maximum) as f64;
        (difference / f64::from_bits(temperature)).exp().to_bits()
    }

    fn quotient(&self, left: u64, right: u64) -> u64 {
        (f64::from_bits(left) / f64::from_bits(right)).to_bits()
    }

    fn difference(&self, left: u64, right: u64) -> u64 {
        (f64::from_bits(left) - f64::from_bits(right)).to_bits()
    }

    fn cumulative(&self, weights: &[u64]) -> Vec<u64> {
        let mut sum = 0.0;
        widened(weights)
            .into_iter()
            .map(|weight| {
                sum += weight;
                f64::to_bits(sum)
            })
            .collect()
    }

    fn uniform(&self, numerator: u64) -> u64 {
        (numerator as f64 * (1.0 / (1_u64 << 53) as f64)).to_bits()
    }

    fn total(&self, weights: &[u64]) -> u64 {
        widened(weights).into_iter().sum::<f64>().to_bits()
    }

    fn product(&self, left: u64, right: u64) -> u64 {
        (f64::from_bits(left) * f64::from_bits(right)).to_bits()
    }
}

const VOCABULARY: usize = 8;

fn limits() -> CausalModelLimits {
    CausalModelLimits { vocab_size: VOCABULARY, max_sequence_length: 16 }
}

/// A model that expects each token to be followed by the next one, in a circle. It leaves the
/// circle after some tokens.
#[derive(Clone, Default)]
struct Circle {
    name: &'static str,
    stray: Vec<i32>,
    /// Passes fail once this many tokens are cached.
    fails_after: Option<usize>,
    /// The token after which every logit is NaN.
    blank_after: Option<i32>,
    broken_fence: bool,
}

impl Circle {
    fn row(&self, token: i32) -> Vec<u32> {
        if self.blank_after == Some(token) {
            return vec![f32::NAN.to_bits(); VOCABULARY];
        }
        let step = if self.stray.contains(&token) { 2 } else { 1 };
        let next = (token + step) as usize % VOCABULARY;
        (0..VOCABULARY)
            .map(|i| if i == next { 5.0_f32 } else { i as f32 / 100.0 })
            .map(f32::to_bits)
            .collect()
    }

    fn block(&self, tokens: &[i32], cache: &mut Vec<i32>) -> Result<LogitBlock, GenerationError> {
        if self.fails_after.is_some_and(|limit| cache.len() >= limit) {
            return Err(GenerationError(format!("device lost{}", self.name)));
        }
        cache.extend_from_slice(tokens);
        let values = tokens.iter().flat_map(|token| self.row(*token)).collect();
        Ok(LogitBlock::new(1, tokens.len(), VOCABULARY, values).unwrap())
    }
}

impl CausalModel for Circle {
    type Cache = Vec<i32>;

    fn new_cache(&self) -> Vec<i32> {
        vec![]
    }

    fn forward_cached_last(&self, tokens: &[i32], cache: &mut Vec<i32>) -> LogitBlock {
        cache.extend_from_slice(tokens);
        LogitBlock::new(1, 1, VOCABULARY, self.row(*tokens.last().unwrap())).unwrap()
    }

    fn try_forward_cached_last(
        &self,
        tokens: &[i32],
        cache: &mut Vec<i32>,
    ) -> Result<LogitBlock, GenerationError> {
        if self.fails_after.is_some_and(|limit| cache.len() >= limit) {
            return Err(GenerationError(format!("device lost{}", self.name)));
        }
        Ok(self.forward_cached_last(tokens, cache))
    }

    fn sync(&self) -> Result<(), String> {
        if self.broken_fence { Err("fence".to_string()) } else { Ok(()) }
    }
}

impl SpeculativeModel for Circle {
    fn fork_cache(&self, cache: &Vec<i32>) -> Vec<i32> {
        cache.clone()
    }

    fn try_forward_cached_block(
        &self,
        tokens: &[i32],
        cache: &mut Vec<i32>,
    ) -> Result<LogitBlock, GenerationError> {
        self.block(tokens, cache)
    }
}

fn greedy(max_new_tokens: usize, eos_token_ids: &[i32]) -> GreedyGenerationConfig {
    GreedyGenerationConfig { max_new_tokens, eos_token_ids: eos_token_ids.to_vec() }
}

/// Sampling that has only one token to choose from.
fn sampled(max_new_tokens: usize, eos_token_ids: &[i32]) -> SamplingGenerationConfig {
    SamplingGenerationConfig {
        max_new_tokens,
        eos_token_ids: eos_token_ids.to_vec(),
        sampling: SamplingConfig { top_k: 1, seed: Some(3), ..Default::default() },
    }
}

#[test]
fn greedy_generation_follows_the_model_until_a_limit_or_an_end_token() {
    let model = Circle::default();
    let output = generate_causal_greedy(&model, &limits(), &[1, 6], &greedy(3, &[])).unwrap();
    assert_eq!(output.token_ids, vec![1, 6, 7, 0, 1]);
    assert_eq!(output.generated_token_ids, vec![7, 0, 1]);
    assert!(!output.stopped_on_eos);
    let output = generate_causal_greedy(&model, &limits(), &[1, 6], &greedy(9, &[0, 4])).unwrap();
    assert_eq!(output.generated_token_ids, vec![7, 0]);
    assert!(output.stopped_on_eos);
}

#[test]
fn refused_requests_have_their_messages() {
    let model = Circle::default();
    let message = |prompt: &[i32], generation: &GreedyGenerationConfig| {
        generate_causal_greedy(&model, &limits(), prompt, generation).unwrap_err().to_string()
    };
    assert_eq!(
        message(&[], &greedy(1, &[])),
        "greedy generation requires at least one prompt token"
    );
    assert_eq!(
        message(&[8], &greedy(1, &[])),
        "prompt token 8 is outside vocabulary [0, 8)"
    );
    assert_eq!(
        message(&[-3], &greedy(1, &[])),
        "prompt token -3 is outside vocabulary [0, 8)"
    );
    assert_eq!(message(&[1], &greedy(usize::MAX, &[])), "generation length overflow");
    assert_eq!(
        message(&[1], &greedy(16, &[])),
        "prompt plus max_new_tokens (17) exceeds model capacity 16"
    );
    assert_eq!(
        message(&[1], &greedy(1, &[9])),
        "EOS token 9 is outside vocabulary [0, 8)"
    );
}

#[test]
fn device_failures_end_generation() {
    let failing = Circle { fails_after: Some(3), ..Default::default() };
    let error = generate_causal_greedy(&failing, &limits(), &[1, 2], &greedy(5, &[])).unwrap_err();
    assert_eq!(error.to_string(), "device lost");
    let broken = Circle { broken_fence: true, ..Default::default() };
    let error = generate_causal_greedy(&broken, &limits(), &[1], &greedy(2, &[])).unwrap_err();
    assert_eq!(error.to_string(), "generation did not complete: fence");
}

#[test]
fn every_way_to_hold_weights_generates_alike() {
    let model = Circle::default();
    let config = LlamaConfig {
        vocab_size: VOCABULARY,
        d_model: 8,
        d_ff: 16,
        num_hidden_layers: 1,
        num_query_heads: 2,
        num_kv_heads: 1,
        max_sequence_length: 16,
        rms_norm_epsilon: 1.0e-6_f64.to_bits(),
        rope_theta: 10_000.0_f32.to_bits(),
    };
    let wanted = greedy(4, &[]);
    let expected = generate_greedy(&model, &config, &[2], &wanted).unwrap();
    assert_eq!(expected.generated_token_ids, vec![3, 4, 5, 6]);
    assert_eq!(generate_greedy_packed(&model, &config, &[2], &wanted).unwrap(), expected);
    assert_eq!(generate_greedy_packed_ruda(&model, &config, &[2], &wanted).unwrap(), expected);
    assert_eq!(generate_greedy_awq(&model, &config, &[2], &wanted).unwrap(), expected);
    let wanted = sampled(4, &[]);
    assert_eq!(generate_sampled(&model, &config, &[2], &wanted, &Floats).unwrap(), expected);
    assert_eq!(generate_sampled_packed(&model, &config, &[2], &wanted, &Floats).unwrap(), expected);
    assert_eq!(
        generate_sampled_packed_ruda(&model, &config, &[2], &wanted, &Floats).unwrap(),
        expected
    );
    assert_eq!(generate_sampled_awq(&model, &config, &[2], &wanted, &Floats).unwrap(), expected);
    let mut refused = sampled(4, &[]);
    refused.sampling.top_p = 2.0_f64.to_bits();
    assert!(generate_causal_sampled(&model, &limits(), &[2], &refused, &Floats).is_err());
}

#[test]
fn streams_show_every_token_and_why_the_last_one_ends() {
    let model = Circle::default();
    let mut seen = vec![];
    let control = GenerationControl {
        stop_token_sequences: vec![vec![5], vec![3, 4]],
        cancellation: None,
    };
    let output = generate_causal_sampled_stream(
        &model,
        &limits(),
        &[1],
        &sampled(9, &[]),
        &control,
        &Floats,
        |event| {
            assert_eq!(event.generated_token_ids.last(), Some(&event.token_id));
            seen.push((event.token_id, event.finish_reason));
            ControlFlow::Continue(())
        },
    )
    .unwrap();
    assert_eq!(output.finish_reason, GenerationFinishReason::StopSequence(1));
    assert_eq!(output.output.generated_token_ids, vec![2, 3, 4]);
    assert_eq!(
        seen,
        vec![(2, None), (3, None), (4, Some(GenerationFinishReason::StopSequence(1)))]
    );
}

#[test]
fn callbacks_and_tokens_cancel_a_stream() {
    let model = Circle::default();
    let output = generate_causal_sampled_stream(
        &model,
        &limits(),
        &[1],
        &sampled(9, &[]),
        &GenerationControl::default(),
        &Floats,
        |event| if event.token_id == 3 { ControlFlow::Break(()) } else { ControlFlow::Continue(()) },
    )
    .unwrap();
    assert_eq!(output.finish_reason, GenerationFinishReason::Cancelled);
    assert_eq!(output.output.generated_token_ids, vec![2, 3]);
    let cancellation = GenerationCancellation::new();
    let control = GenerationControl {
        stop_token_sequences: vec![],
        cancellation: Some(cancellation.clone()),
    };
    let output = generate_causal_sampled_stream(
        &model,
        &limits(),
        &[1],
        &sampled(9, &[]),
        &control,
        &Floats,
        |event| {
            if event.token_id == 4 {
                cancellation.cancel();
            }
            ControlFlow::Continue(())
        },
    )
    .unwrap();
    assert_eq!(output.finish_reason, GenerationFinishReason::Cancelled);
    assert_eq!(output.output.generated_token_ids, vec![2, 3, 4]);
}

fn speculation(max_new_tokens: usize, draft_tokens: usize) -> SpeculativeGenerationConfig {
    SpeculativeGenerationConfig {
        max_new_tokens,
        eos_token_ids: vec![],
        draft_tokens,
        sampling: None,
    }
}

#[test]
fn greedy_speculation_gives_what_the_target_alone_gives() {
    let target = Circle { stray: vec![5], ..Default::default() };
    let expected = generate_causal_greedy(&target, &limits(), &[1], &greedy(10, &[])).unwrap();
    for stray in [vec![], vec![5], vec![2, 3], vec![0, 1, 2, 3, 4, 6, 7]] {
        let draft = Circle { stray, ..Default::default() };
        for draft_tokens in [1, 2, 5] {
            let result = generate_causal_speculative(
                &target,
                &limits(),
                &draft,
                &limits(),
                &[1],
                &speculation(10, draft_tokens),
                &Floats,
            )
            .unwrap();
            assert_eq!(result.output, expected);
            assert_eq!(result.finish_reason, GenerationFinishReason::MaxNewTokens);
            let stats = result.stats;
            assert!(stats.accepted_tokens <= stats.proposed_tokens);
            assert_eq!(stats.target_block_forwards, stats.rounds);
            assert_eq!(
                stats.accepted_tokens + stats.rejected_blocks + stats.bonus_tokens,
                expected.generated_token_ids.len()
            );
        }
    }
}

#[test]
fn sampled_speculation_is_reproducible_and_ends_at_end_tokens() {
    let target = Circle::default();
    let draft = Circle { stray: vec![3], ..Default::default() };
    let mut config = speculation(12, 3);
    config.eos_token_ids = vec![6];
    config.sampling = Some(SamplingConfig { seed: Some(9), ..Default::default() });
    let run = || {
        generate_causal_speculative(
            &target,
            &limits(),
            &draft,
            &limits(),
            &[1],
            &config,
            &Floats,
        )
        .unwrap()
    };
    let first = run();
    let second = run();
    assert_eq!(first.output, second.output);
    assert_eq!(first.stats, second.stats);
    assert_eq!(first.output.stopped_on_eos, first.output.token_ids.last() == Some(&6));
}

#[test]
fn speculation_is_refused_and_cancelled_like_generation() {
    let model = Circle::default();
    let other = CausalModelLimits { vocab_size: 9, max_sequence_length: 16 };
    let message = |draft_limits: &CausalModelLimits, draft_tokens: usize| {
        generate_causal_speculative(
            &model,
            &limits(),
            &model,
            draft_limits,
            &[1],
            &speculation(4, draft_tokens),
            &Floats,
        )
        .unwrap_err()
        .to_string()
    };
    let refused = "speculation requires a positive draft length and matching vocabularies";
    assert_eq!(message(&limits(), 0), refused);
    assert_eq!(message(&other, 2), refused);
    let mut shown = vec![];
    let result = generate_causal_speculative_stream(
        &model,
        &limits(),
        &model,
        &limits(),
        &[1],
        &speculation(9, 4),
        &GenerationControl::default(),
        &Floats,
        |event| {
            shown.push(event.token_id);
            if shown.len() == 3 { ControlFlow::Break(()) } else { ControlFlow::Continue(()) }
        },
    )
    .unwrap();
    assert_eq!(result.finish_reason, GenerationFinishReason::Cancelled);
    assert_eq!(result.output.generated_token_ids, vec![2, 3, 4]);
    assert_eq!(shown, vec![2, 3, 4]);
}

#[test]
fn callbacks_see_each_verified_token_once() {
    let target = Circle::default();
    let draft = Circle { stray: vec![3, 5], ..Default::default() };
    let mut config = speculation(10, 4);
    for sampling in [None, Some(SamplingConfig { seed: Some(9), ..Default::default() })] {
        config.sampling = sampling;
        let mut shown = vec![];
        let result = generate_causal_speculative_stream(
            &target,
            &limits(),
            &draft,
            &limits(),
            &[1],
            &config,
            &GenerationControl::default(),
            &Floats,
            |event| {
                assert_eq!(event.generated_token_ids.last(), Some(&event.token_id));
                assert_eq!(event.finish_reason.is_some(), event.generated_token_ids.len() == 10);
                shown.push(event.generated_token_ids.to_vec());
                ControlFlow::Continue(())
            },
        )
        .unwrap();
        assert!(result.stats.rejected_blocks > 0);
        let generated = result.output.generated_token_ids;
        let prefixes: Vec<_> = (1..=generated.len()).map(|n| generated[..n].to_vec()).collect();
        assert_eq!(shown, prefixes);
    }
}

/// The tokens that a callback sees, and the error that ends the request.
fn broken_speculation(target: &Circle, draft: &Circle) -> (Vec<i32>, String) {
    let mut shown = vec![];
    let error = generate_causal_speculative_stream(
        target,
        &limits(),
        draft,
        &limits(),
        &[1],
        &speculation(6, 2),
        &GenerationControl::default(),
        &Floats,
        |event| {
            shown.push(event.token_id);
            ControlFlow::Continue(())
        },
    )
    .unwrap_err();
    let alone = generate_causal_speculative(
        target,
        &limits(),
        draft,
        &limits(),
        &[1],
        &speculation(6, 2),
        &Floats,
    );
    assert_eq!(alone.unwrap_err(), error);
    (shown, error.to_string())
}

fn losing(name: &'static str, fails_after: usize) -> Circle {
    Circle { name, fails_after: Some(fails_after), ..Default::default() }
}

#[test]
fn speculation_breaks_off_at_the_first_pass_that_fails() {
    let sound = Circle::default();
    let lost = |name: &str| format!("device lost{name}");
    let shown = |tokens: &[i32]| tokens.to_vec();
    // Neither the target's nor the draft's pass over the prompt.
    let both = broken_speculation(&losing(" (target)", 0), &losing(" (draft)", 0));
    assert_eq!(both, (shown(&[]), lost(" (target)")));
    let one = broken_speculation(&sound, &losing(" (draft)", 0));
    assert_eq!(one, (shown(&[]), lost(" (draft)")));
    // The draft's pass over its first candidate comes before the target's over the block.
    let both = broken_speculation(&losing(" (target)", 1), &losing(" (draft)", 1));
    assert_eq!(both, (shown(&[]), lost(" (draft)")));
    let one = broken_speculation(&losing(" (target)", 1), &sound);
    assert_eq!(one, (shown(&[]), lost(" (target)")));
    // Both candidates and one more token are emitted before that token is read.
    let both = broken_speculation(&losing(" (target)", 3), &losing(" (draft)", 3));
    assert_eq!(both, (shown(&[2, 3, 4]), lost(" (target)")));
    let one = broken_speculation(&sound, &losing(" (draft)", 3));
    assert_eq!(one, (shown(&[2, 3, 4]), lost(" (draft)")));
    // The second candidate is replaced; the tokens are then read again one by one.
    let astray = Circle { stray: vec![2], ..Default::default() };
    let one = broken_speculation(&losing(" (target)", 2), &astray);
    assert_eq!(one, (shown(&[2, 3]), lost(" (target)")));
}

#[test]
fn speculation_breaks_off_where_no_token_can_be_chosen() {
    let sound = Circle::default();
    let blank = |token: i32| Circle { blank_after: Some(token), ..Default::default() };
    let message = "all vocabulary logits are NaN".to_string();
    // The first and the second candidate of the draft.
    assert_eq!(broken_speculation(&sound, &blank(1)), (vec![], message.clone()));
    assert_eq!(broken_speculation(&sound, &blank(2)), (vec![], message.clone()));
    // The target's answers to them, and the token after them.
    assert_eq!(broken_speculation(&blank(1), &sound), (vec![], message.clone()));
    assert_eq!(broken_speculation(&blank(2), &sound), (vec![2], message.clone()));
    assert_eq!(broken_speculation(&blank(3), &sound), (vec![2, 3], message));
}

#[test]
fn speculation_waits_for_the_target_alone() {
    let sound = Circle::default();
    let broken = Circle { broken_fence: true, ..Default::default() };
    assert_eq!(
        broken_speculation(&broken, &sound),
        (vec![2, 3, 4, 5, 6, 7], "speculative generation did not complete: fence".to_string())
    );
    let result = generate_causal_speculative(
        &sound,
        &limits(),
        &broken,
        &limits(),
        &[1],
        &speculation(6, 2),
        &Floats,
    );
    assert_eq!(result.unwrap().output.generated_token_ids, vec![2, 3, 4, 5, 6, 7]);
}

/// A batch model whose cache holds the rows that it has seen.
struct Rows {
    circle: Circle,
    wrong_shape: bool,
}

impl DeviceBatchModel for Rows {
    type Cache = Vec<u64>;

    fn batch_limits(&self) -> CausalModelLimits {
        limits()
    }

    fn new_batch_cache(&self, _config: PagedKvCacheConfig) -> Vec<u64> {
        vec![]
    }

    fn fork_batch_cache(&self, cache: &Vec<u64>) -> Vec<u64> {
        cache.clone()
    }

    fn forward_batch(
        &self,
        batch: &ScheduledBatch,
        cache: &mut Vec<u64>,
    ) -> Result<LogitBlock, GenerationError> {
        cache.extend(batch.sequences.iter().map(|row| row.request_id.0));
        if self.circle.fails_after.is_some() {
            return Err(GenerationError("out of memory".to_string()));
        }
        let rows = if self.wrong_shape { 1 + batch.batch_size() } else { batch.batch_size() };
        let mut values = vec![];
        for i in 0..rows {
            let row = &batch.sequences[i.min(batch.batch_size() - 1)];
            values.extend(self.circle.row(*row.token_ids.last().unwrap()));
        }
        Ok(LogitBlock::new(rows, 1, VOCABULARY, values).unwrap())
    }

    fn retain_batch_cache(&self, cache: &mut Vec<u64>, scheduler: &ContinuousBatchScheduler) {
        cache.retain(|id| scheduler.active.contains_key(*id));
    }

    fn sync(&self) -> Result<(), String> {
        if self.circle.broken_fence { Err("fence".to_string()) } else { Ok(()) }
    }
}

fn batch_config() -> ContinuousBatchConfig {
    ContinuousBatchConfig { max_active_sequences: 4, max_batch_tokens: 8 }
}

fn kv_config(max_sequence_length: usize) -> PagedKvCacheConfig {
    PagedKvCacheConfig { block_size: 2, num_pages: 16, max_sequence_length }
}

fn executor(model: &Rows) -> DeviceBatchExecutor<'_, Rows> {
    match DeviceBatchExecutor::new(model, batch_config(), kv_config(16), Default::default()) {
        Ok(executor) => executor,
        Err(error) => panic!("{}", error.to_string()),
    }
}

#[test]
fn batches_generate_what_single_requests_generate() {
    let model = Rows { circle: Circle { stray: vec![4], ..Default::default() }, wrong_shape: false };
    let mut executor = executor(&model);
    let prompts = [vec![1], vec![2, 3], vec![6]];
    let mut ids = vec![];
    for prompt in &prompts[..2] {
        ids.push(executor.submit(prompt.clone(), greedy(4, &[])).unwrap());
    }
    ids.push(executor.submit_sampled(prompts[2].clone(), sampled(4, &[])).unwrap());
    let mut finished = BTreeMap::new();
    while let Some(batch) = executor.step(&Floats).unwrap() {
        assert_eq!(batch.generated_token_ids.len(), batch.batch.batch_size());
        while let Some(result) = executor.pop_finished() {
            finished.insert(result.request_id.0, result.generated_token_ids);
        }
    }
    assert!(executor.is_idle());
    assert!(executor.cache().is_empty());
    for (prompt, id) in prompts.iter().zip(ids) {
        let alone =
            generate_causal_greedy(&model.circle, &limits(), prompt, &greedy(4, &[])).unwrap();
        assert_eq!(finished[&id.0], alone.generated_token_ids);
    }
    assert_eq!(executor.snapshot().free_kv_pages, 16);
}

#[test]
fn greedy_batches_ask_nothing_of_the_arithmetic() {
    let model = Rows { circle: Circle::default(), wrong_shape: false };
    let mut executor = executor(&model);
    let id = executor.submit(vec![1], greedy(3, &[])).unwrap();
    while executor.step(&GreedyOnly).unwrap().is_some() {}
    let finished = executor.pop_finished().unwrap();
    assert_eq!(finished.request_id, id);
    assert_eq!(finished.generated_token_ids, vec![2, 3, 4]);
}

#[test]
fn failed_batches_leave_the_cache_and_the_requests_as_they_were() {
    for (circle, wrong_shape, expected) in [
        (Circle { fails_after: Some(0), ..Default::default() }, false, "out of memory"),
        (Circle::default(), true, "device batch logit shape mismatch"),
    ] {
        let model = Rows { circle, wrong_shape };
        let mut executor = executor(&model);
        let id = executor.submit(vec![1], greedy(2, &[])).unwrap();
        let before = executor.snapshot();
        let error = executor.step(&Floats).unwrap_err();
        assert!(error.to_string().contains(expected), "{}", error.to_string());
        assert!(executor.cache().is_empty());
        assert_eq!(executor.snapshot().free_kv_pages, before.free_kv_pages);
        assert!(!executor.snapshot().has_in_flight_batch);
        assert!(executor.cancel(id).unwrap().is_some());
        assert!(executor.is_idle());
    }
}

#[test]
fn batches_that_may_still_run_keep_their_pages() {
    let circle = Circle { broken_fence: true, ..Default::default() };
    let model = Rows { circle, wrong_shape: false };
    let mut executor = executor(&model);
    let id = executor.submit(vec![1], greedy(2, &[])).unwrap();
    assert_eq!(executor.step(&Floats).unwrap_err().to_string(), "batch completion: fence");
    assert!(executor.snapshot().has_in_flight_batch);
    assert_eq!(executor.snapshot().free_kv_pages, 15);
    assert!(executor.cancel(id).is_err());
}

#[test]
fn executors_stay_within_the_capacity_of_their_model() {
    let model = Rows { circle: Circle::default(), wrong_shape: false };
    match DeviceBatchExecutor::new(&model, batch_config(), kv_config(17), Default::default()) {
        Ok(_) => panic!("the model holds 16 positions"),
        Err(error) => {
            assert_eq!(error.to_string(), "KV sequence limit exceeds model capacity")
        }
    }
    let mut executor = executor(&model);
    assert!(executor.submit(vec![8], greedy(1, &[])).is_err());
    assert!(executor.submit(vec![1], greedy(1, &[8])).is_err());
    assert!(executor.is_idle());
}

fn generated(tokens: &[i32]) -> TokenGenerationOutput {
    TokenGenerationOutput {
        token_ids: tokens.to_vec(),
        generated_token_ids: tokens.to_vec(),
        stopped_on_eos: false,
    }
}

fn failure(kind: FailureKind, message: &str) -> TuneFailure {
    TuneFailure { kind, message: message.to_string() }
}

#[test]
fn calibration_checks_its_request_before_anything_runs() {
    let message = |revision: &str, prompt: &[i32], max_new: usize, end_to_end, shared| {
        calibrate_greedy_packed(
            revision,
            prompt,
            &greedy(max_new, &[]),
            end_to_end,
            shared,
            true,
            |_| -> Result<TokenGenerationOutput, TuneFailure> { panic!("nothing may run") },
            || String::new(),
            |_, _| Ok(0),
        )
        .unwrap_err()
        .to_string()
    };
    let workload =
        "calibration requires an immutable model revision, prompt and nonzero generation length";
    assert_eq!(message("", &[1], 1, true, true), workload);
    assert_eq!(message("r", &[], 1, true, true), workload);
    assert_eq!(message("r", &[1], 0, true, true), workload);
    assert_eq!(
        message("r", &[1], 1, false, true),
        "complete generation calibration requires EndToEnd timing"
    );
    assert_eq!(
        message("r", &[1], 1, true, false),
        "use the controller returned by enable_stack_autotune so lower-level decisions are shared"
    );
}

#[test]
fn calibration_warms_both_plans_and_keeps_what_was_selected() {
    let run = |automatic: Result<(), FailureKind>, choice: usize| {
        calibrate_greedy_packed(
            "r",
            &[1],
            &greedy(1, &[]),
            true,
            true,
            true,
            |index| match (index, automatic) {
                (1, Err(kind)) => Err(failure(kind, "second plan")),
                _ => Ok(generated(&[1])),
            },
            || "lower".to_string(),
            |eligible, dependency| {
                assert_eq!(eligible, automatic.is_ok());
                assert_eq!(dependency, "lower");
                Ok(choice)
            },
        )
    };
    let plan = run(Ok(()), 1).unwrap();
    assert_eq!(plan.mode, KernelMode::Automatic);
    assert!(plan.lower_levels_unchanged(&"lower".to_string()));
    assert!(!plan.lower_levels_unchanged(&"other".to_string()));
    let plan = run(Err(FailureKind::Rejected), 0).unwrap();
    assert_eq!(plan.mode, KernelMode::Portable);
    assert_eq!(run(Err(FailureKind::Device), 0).unwrap_err().to_string(), "second plan");
}

#[test]
fn replays_and_plans_are_judged() {
    assert_eq!(plan_mode(0).unwrap(), KernelMode::Portable);
    assert_eq!(plan_mode(1).unwrap(), KernelMode::Automatic);
    assert_eq!(plan_mode(2).unwrap_err().message, "unknown packed generation plan");
    assert_eq!(
        replayed(Ok(generated(&[1])), Err("hang".to_string())).unwrap_err().message,
        "generation replay did not complete: hang"
    );
    let refused = Err(GenerationError("refused".to_string()));
    assert_eq!(replayed(refused, Ok(())).unwrap_err().kind, FailureKind::Rejected);
    assert_eq!(replayed(Ok(generated(&[1])), Ok(())).unwrap(), generated(&[1]));
    assert!(validate_outputs(&generated(&[1, 2]), &generated(&[1, 2])).is_ok());
    assert_eq!(
        validate_outputs(&generated(&[1, 2]), &generated(&[1, 3])).unwrap_err().message,
        "complete generation plans disagree on token ids or stopping behavior"
    );
    let expected: Vec<u8> = [1, -2, i32::MAX].iter().flat_map(|token| token.to_le_bytes()).collect();
    assert_eq!(encode_prompt(&[1, -2, i32::MAX]), expected);
}

#[test]
fn drivers_are_checked_by_version() {
    let decode = |encoded: i32| Ok((encoded / 1000, encoded % 1000 / 10));
    assert_eq!(cuda_driver_api_version(Ok(12040), decode).unwrap(), (12, 4));
    let error = cuda_driver_api_version(Err("no driver".to_string()), decode).unwrap_err();
    assert_eq!(error.kind(), RuntimeErrorKind::DriverIncompatible);
    assert_eq!(error.to_string(), "no driver");
    let old = |version: &(i32, i32)| {
        if version.0 < 12 {
            Err(RuntimeError::new(RuntimeErrorKind::DriverIncompatible, "too old".to_string()))
        } else {
            Ok(())
        }
    };
    assert_eq!(validate_cuda_driver(Ok((12, 4)), old).unwrap(), (12, 4));
    assert_eq!(validate_cuda_driver(Ok((11, 8)), old).unwrap_err().to_string(), "too old");
    assert!(validate_cuda_driver(Err(error), old).is_err());
}

#[test]
fn rows_of_logits_are_checked_before_a_token_is_taken() {
    let row = |values: &[f32]| checked_argmax(&values.iter().map(|v| v.to_bits()).collect::<Vec<_>>());
    assert_eq!(row(&[0.5, 2.0, 2.0]).unwrap(), 1);
    assert_eq!(row(&[-0.0, 0.0]).unwrap(), 0);
    let unordered = "logits contain NaN or positive infinity";
    let masked = "all logits are masked";
    for (values, message) in [
        (&[f32::NAN, 1.0][..], unordered),
        (&[f32::NEG_INFINITY, f32::INFINITY][..], unordered),
        (&[f32::NEG_INFINITY][..], masked),
        (&[][..], masked),
    ] {
        let error = row(values).unwrap_err();
        assert_eq!(error.kind(), RuntimeErrorKind::Numerical);
        assert_eq!(error.to_string(), message);
    }
}

#[test]
fn device_argmax_is_asked_for_the_last_row() {
    let values: Vec<u32> = [9.0_f32, 1.0, 2.0, 3.0, 5.0, 4.0].map(f32::to_bits).to_vec();
    let block = LogitBlock::new(1, 2, 3, values.clone()).unwrap();
    let device = |row: Vec<u32>| {
        assert_eq!(row, [3.0_f32, 5.0, 4.0].map(f32::to_bits));
        ArgmaxAnswer::Indices(vec![1])
    };
    assert_eq!(device_greedy_token(&block, device).unwrap(), 1);
    let error = |answer: ArgmaxAnswer| device_greedy_token(&block, |_| answer).unwrap_err().0;
    assert_eq!(error(ArgmaxAnswer::Indices(vec![])), "generation argmax was empty");
    assert_eq!(
        error(ArgmaxAnswer::Unread("lost".into())),
        "cannot read generation argmax: lost"
    );
    assert_eq!(
        error(ArgmaxAnswer::Undecoded("i64".into())),
        "cannot decode generation argmax: i64"
    );
    let pair = LogitBlock::new(2, 1, 3, values).unwrap();
    assert_eq!(
        device_greedy_token(&pair, |_| ArgmaxAnswer::Indices(vec![0])).unwrap_err().0,
        "expected non-empty batch-one logits, got [2, 1, 3]"
    );
}

#[test]
fn watching_and_repeating_a_seeded_request_change_nothing() {
    let model = Circle::default();
    let request = SamplingGenerationConfig {
        max_new_tokens: 12,
        eos_token_ids: vec![],
        sampling: SamplingConfig {
            temperature: 4.0_f64.to_bits(),
            seed: Some(29),
            ..Default::default()
        },
    };
    let plain = generate_causal_sampled(&model, &limits(), &[1], &request, &Floats).unwrap();
    let again = generate_causal_sampled(&model, &limits(), &[1], &request, &Floats).unwrap();
    assert_eq!(plain, again);
    let watched = generate_causal_sampled_stream(
        &model,
        &limits(),
        &[1],
        &request,
        &GenerationControl::default(),
        &Floats,
        |_| ControlFlow::Continue(()),
    )
    .unwrap();
    assert_eq!(watched.output, plain);
    assert_eq!(watched.finish_reason, GenerationFinishReason::MaxNewTokens);
    let other = SamplingGenerationConfig {
        sampling: SamplingConfig { seed: Some(30), ..request.sampling },
        ..request
    };
    assert_ne!(generate_causal_sampled(&model, &limits(), &[1], &other, &Floats).unwrap(), plain);
}
