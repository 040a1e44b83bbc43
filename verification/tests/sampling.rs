use rand::rngs::StdRng;
use rand::{RngExt, SeedableRng};
use rullm::generation::sampling::{
    filtered_probabilities, shares, SamplingArithmetic, SamplingWorkspace,
};
use rullm::generation::speculative::selection::{accept, residual, Selection};
use rullm::logits::{is_at_most_64, is_less_64};
use rullm::{GenerationError, SamplingConfig, TokenSampler};

/// IEEE double-precision arithmetic on bit patterns.
struct Floats;

fn widened(values: &[u64]) -> Vec<f64> {
    values.iter().map(|&bits| f64::from_bits(bits)).collect()
}

impl SamplingArithmetic for Floats {
    fn exponential(&self, temperature: u64, logit: u32, maximum: u32) -> u64 {
        let difference = f32::from_bits(logit) as f64 - f32::from_bits(maximum) as f64;
        (difference / f64::from_bits(temperature)).exp().to_bits()
    }

    fn quotient(&self, left: u64, right: u64) -> u64 {
        (f64::from_bits(left) / f64::from_bits(right)).to_bits()
    }

    fn difference(&self, left: u64, right: u64) -> u64 {
        (f64::from_bits(left) - f64::from_bits(right)).to_bits()
    }

    fn cumulative(&self, weights: &[u64]) -> Vec<u64> {
        let mut sum = 0.0;
        widened(weights)
            .into_iter()
            .map(|weight| {
                sum += weight;
                f64::to_bits(sum)
            })
            .collect()
    }

    fn uniform(&self, numerator: u64) -> u64 {
        (numerator as f64 * (1.0 / (1_u64 << 53) as f64)).to_bits()
    }

    fn total(&self, weights: &[u64]) -> u64 {
        widened(weights).into_iter().sum::<f64>().to_bits()
    }

    fn product(&self, left: u64, right: u64) -> u64 {
        (f64::from_bits(left) * f64::from_bits(right)).to_bits()
    }
}

fn bits(values: &[f32]) -> Vec<u32> {
    values.iter().map(|value| value.to_bits()).collect()
}

/// Sampling options in floating-point numbers.
#[derive(Clone, Copy, Debug)]
struct Options {
    temperature: f64,
    top_k: usize,
    top_p: f64,
    seed: Option<u64>,
}

impl Default for Options {
    fn default() -> Self {
        Options { temperature: 1.0, top_k: 0, top_p: 1.0, seed: None }
    }
}

impl Options {
    fn config(self) -> SamplingConfig {
        SamplingConfig {
            temperature: self.temperature.to_bits(),
            top_k: self.top_k,
            top_p: self.top_p.to_bits(),
            seed: self.seed,
        }
    }
}

fn sampler_of(options: Options) -> TokenSampler {
    TokenSampler::new(options.config()).unwrap()
}

fn sample(sampler: &mut TokenSampler, logits: &[f32]) -> Result<i32, GenerationError> {
    sampler.sample(&Floats, &bits(logits))
}

#[test]
fn seeded_stream_matches_existing_std_rng() {
    for seed in [0, 1, 42, u64::MAX] {
        let mut original = StdRng::seed_from_u64(seed);
        let mut sampler = TokenSampler::new(Options {
            seed: Some(seed),
            ..Default::default()
        }.config()).unwrap();
        for _ in 0..4096 {
            assert_eq!(original.random::<f64>(), sampler.rng.random::<f64>());
        }
        let mut cloned = sampler.clone();
        for _ in 0..257 {
            assert_eq!(sampler.rng.random::<f64>(), cloned.rng.random::<f64>());
        }
    }
}

fn probabilities(logits: &[f32], temperature: f64, top_k: usize, top_p: f64) -> Vec<f64> {
    let config = Options {
        temperature,
        top_k,
        top_p,
        seed: Some(7),
    }.config();
    widened(&filtered_probabilities(&Floats, &bits(logits), config).unwrap())
}

#[test]
fn temperature_rescales_log_odds() {
    let distribution = probabilities(&[0.0, 2.0], 2.0, 0, 1.0);
    assert!((distribution[1] / distribution[0] - std::f64::consts::E).abs() < 1e-12);
}

#[test]
fn top_k_retains_threshold_ties_and_clamps_to_vocabulary() {
    assert_eq!(
        probabilities(&[-1.0, 2.0, 2.0], 1.0, 1, 1.0),
        vec![0.0, 0.5, 0.5]
    );
    assert_eq!(
        probabilities(&[0.0, 1.0], 1.0, usize::MAX, 1.0),
        probabilities(&[0.0, 1.0], 1.0, 0, 1.0)
    );
}

#[test]
fn nucleus_retains_boundary_token_and_at_least_one() {
    assert_eq!(
        probabilities(&[0.0; 4], 1.0, 0, 0.5),
        vec![0.0, 0.0, 0.5, 0.5]
    );
    assert_eq!(
        probabilities(&[0.0; 4], 1.0, 0, 0.01),
        vec![0.0, 0.0, 0.0, 1.0]
    );
}

#[test]
fn some_greatest_logit_always_keeps_a_share() {
    let rows: [&[f32]; 4] =
        [&[1.0], &[3.0, 3.0, -2.0], &[f32::NEG_INFINITY, -f32::MAX], &[-1.0, 0.5, 0.5, 0.25]];
    for row in rows {
        let greatest = row.iter().fold(f32::NEG_INFINITY, |most, &logit| most.max(logit));
        for temperature in [f64::MIN_POSITIVE, 0.7, f64::MAX] {
            for top_k in [0, 1, 3] {
                for top_p in [f64::MIN_POSITIVE, 0.4, 1.0] {
                    let shares = probabilities(row, temperature, top_k, top_p);
                    assert!(shares.iter().all(|&share| share >= 0.0));
                    assert!(row.iter().zip(&shares).any(|(&logit, &share)| {
                        logit == greatest && share > 0.0
                    }));
                }
            }
        }
    }
}

#[test]
fn shares_follow_logits() {
    let row = [1.5, f32::NEG_INFINITY, -2.0, 3.0, 0.0, -0.0, 3.0, 2.9];
    for temperature in [0.3, 1.0, 7.0] {
        for top_k in [0, 1, 3, 5, 8, 9] {
            for top_p in [0.05, 0.5, 0.9, 1.0] {
                let shares = probabilities(&row, temperature, top_k, top_p);
                for (i, &share) in shares.iter().enumerate() {
                    assert!((0.0..=1.0).contains(&share));
                    let above = row.iter().filter(|&&other| other > row[i]).count();
                    if row[i] == f32::NEG_INFINITY || (0 < top_k && top_k < 8 && above >= top_k) {
                        assert_eq!(share, 0.0);
                    }
                    for (j, &other) in shares.iter().enumerate() {
                        if row[i] < row[j] {
                            assert!(share <= other);
                        }
                        if row[i] == row[j] && top_p == 1.0 {
                            assert_eq!(share, other);
                        }
                    }
                }
                assert!(shares[6] > 0.0);
                if top_k >= 8 {
                    assert_eq!(shares, probabilities(&row, temperature, 0, top_p));
                }
            }
        }
    }
}

#[test]
fn candidates_are_accepted_by_the_capped_ratio() {
    let decide = |target: f64, draft: f64, uniform: f64| {
        accept(&Floats, target.to_bits(), draft.to_bits(), uniform.to_bits())
    };
    assert!(decide(0.5, 0.25, 0.999));
    assert!(decide(0.25, 0.5, 0.499));
    assert!(!decide(0.25, 0.5, 0.5));
    assert!(!decide(0.0, 0.5, 0.0));
    assert!(decide(0.0, 0.0, 0.999));
}

#[test]
fn residual_keeps_what_the_target_has_over_the_draft() {
    let row = |values: &[f64]| values.iter().map(|value| value.to_bits()).collect::<Vec<u64>>();
    let left = residual(&Floats, &row(&[0.5, 0.25, 0.25, 0.0]), &row(&[0.25, 0.5, 0.25, f64::NAN]));
    assert_eq!(widened(&left), vec![0.25, 0.0, 0.0, 0.0]);
}

#[test]
fn rejected_candidates_are_replaced_by_another_token() {
    let mut selection = Selection::new(Some(
        Options { temperature: 0.8, top_p: 0.95, seed: Some(5), ..Default::default() }.config(),
    ));
    let (draft, target) = (bits(&[2.0, 1.0, 0.0, -1.0]), bits(&[-1.0, 0.5, 1.0, 2.0]));
    let mut rejected = 0;
    for _ in 0..256 {
        let (candidate, shares) = selection.propose(&Floats, &draft).unwrap();
        let (token, accepted) = selection.verify(&Floats, candidate, &shares, &target).unwrap();
        assert_eq!(accepted, token == candidate);
        rejected += usize::from(!accepted);
    }
    assert!(rejected > 0);
}

#[test]
fn bit_patterns_compare_as_their_numbers() {
    let cases = [(1.0, 1.0), (0.0, -0.0), (-0.0, 0.0), (-2.0, 1.0), (1.0, -2.0)];
    for (left, right) in cases {
        let (left, right): (f64, f64) = (left, right);
        assert_eq!(is_at_most_64(left.to_bits(), right.to_bits()), left <= right);
        assert_eq!(is_less_64(left.to_bits(), right.to_bits()), left < right);
    }
    assert!(!is_at_most_64(f64::NAN.to_bits(), f64::NAN.to_bits()));
    assert!(!is_at_most_64(1.0_f64.to_bits(), f64::NAN.to_bits()));
    assert!(is_at_most_64(f64::MAX.to_bits(), f64::INFINITY.to_bits()));
}

#[test]
fn top_k_is_applied_before_nucleus() {
    let distribution = probabilities(&[0.0, 1.0, 2.0], 1.0, 2, 0.7);
    assert_eq!(distribution, vec![0.0, 0.0, 1.0]);
}

#[test]
fn signed_zero_ties_use_token_order() {
    assert_eq!(probabilities(&[0.0, -0.0], 1.0, 0, 0.5), vec![0.0, 1.0]);
}

#[test]
fn masked_tokens_and_extreme_temperatures_are_handled() {
    assert_eq!(
        probabilities(&[f32::NEG_INFINITY, f32::MAX], f64::MIN_POSITIVE, 0, 1.0),
        vec![0.0, 1.0]
    );
    let distribution = probabilities(&[-f32::MAX, f32::MAX], f64::MAX, 0, 1.0);
    assert!((distribution[0] - 0.5).abs() < 1e-12);
}

#[test]
fn invalid_configuration_and_invalid_logits_are_rejected() {
    for temperature in [0.0, -1.0, f64::NAN, f64::INFINITY] {
        assert!(
            TokenSampler::new(Options {
                temperature,
                ..Default::default()
            }.config())
            .is_err()
        );
    }
    for top_p in [0.0, -0.1, 1.1, f64::NAN, f64::INFINITY] {
        assert!(
            TokenSampler::new(Options {
                top_p,
                ..Default::default()
            }.config())
            .is_err()
        );
    }
    let mut sampler = TokenSampler::new(SamplingConfig::default()).unwrap();
    for logits in [
        vec![],
        vec![f32::NAN],
        vec![f32::NEG_INFINITY; 3],
        vec![0.0, f32::INFINITY],
    ] {
        assert!(sample(&mut sampler, &logits).is_err());
    }
}

#[test]
fn seed_and_cloned_state_are_reproducible() {
    let config = Options {
        seed: Some(42),
        ..Default::default()
    }.config();
    let mut first = TokenSampler::new(config).unwrap();
    let mut second = TokenSampler::new(config).unwrap();
    for _ in 0..128 {
        assert_eq!(sample(&mut first, &[0.0; 5]), sample(&mut second, &[0.0; 5]));
    }
    let mut cloned = first.clone();
    for _ in 0..128 {
        assert_eq!(sample(&mut first, &[0.0; 5]), sample(&mut cloned, &[0.0; 5]));
    }
}

#[test]
fn sampled_tokens_cannot_escape_filtered_support() {
    let mut sampler = TokenSampler::new(Options {
        top_k: 2,
        seed: Some(5),
        ..Default::default()
    }.config())
    .unwrap();
    let mut counts = [0_usize; 3];
    for _ in 0..1024 {
        counts[sample(&mut sampler, &[-100.0, 1.0, 1.0]).unwrap() as usize] += 1;
    }
    assert_eq!(counts[0], 0);
    assert!(counts[1] > 0 && counts[2] > 0);
}

// A full-sort reference, intentionally independent of workspace code.
fn reference_filtered_probabilities(
    logits: &[f32],
    config: Options,
) -> Result<Vec<f64>, GenerationError> {
    config.config().validate()?;
    if logits.is_empty() || logits.len() - 1 > i32::MAX as usize {
        return Err(GenerationError(
            "sampling requires a nonempty i32-indexed vocabulary".into(),
        ));
    }
    if logits
        .iter()
        .any(|value| value.is_nan() || *value == f32::INFINITY)
    {
        return Err(GenerationError(
            "sampling logits contain NaN or positive infinity".into(),
        ));
    }
    let maximum = logits.iter().copied().fold(f32::NEG_INFINITY, f32::max);
    if maximum == f32::NEG_INFINITY {
        return Err(GenerationError("all sampling logits are masked".into()));
    }
    let mut order: Vec<usize> = (0..logits.len()).collect();
    if config.top_k > 0 || config.top_p < 1.0 {
        // Equal logits have a deterministic token-ID order for nucleus filtering.
        order.sort_by(|&left, &right| {
            logits[left]
                .partial_cmp(&logits[right])
                .unwrap()
                .then(left.cmp(&right))
        });
    }
    let threshold = if config.top_k > 0 {
        logits[order[logits.len() - config.top_k.min(logits.len())]]
    } else {
        f32::NEG_INFINITY
    };
    let mut probabilities: Vec<f64> = logits
        .iter()
        .map(|&value| {
            if value < threshold {
                0.0
            } else {
                ((value as f64 - maximum as f64) / config.temperature).exp()
            }
        })
        .collect();
    let total: f64 = probabilities.iter().sum();
    if config.top_p < 1.0 {
        let mut cumulative = 0.0;
        for &token in order.iter().take(order.len() - 1) {
            cumulative += probabilities[token] / total;
            if cumulative <= 1.0 - config.top_p {
                probabilities[token] = 0.0;
            }
        }
    }
    let retained: f64 = probabilities.iter().sum();
    for probability in &mut probabilities {
        *probability /= retained;
    }
    Ok(probabilities)
}

#[test]
fn optimized_probabilities_match_full_sort_reference_bit_for_bit() {
    let mut state = 42_u64;
    for size in [1, 2, 3, 4, 17, 65, 257] {
        for round in 0..24 {
            let mut logits: Vec<f32> = (0..size).map(|_| {
                state = state.wrapping_mul(6364136223846793005).wrapping_add(1);
                match state % 11 {
                    0 => f32::NEG_INFINITY,
                    1 => -0.0,
                    _ => ((state >> 32) as i32 % 32) as f32 / 3.0,
                }
            }).collect();
            logits[round % size] = 0.0;
            for temperature in [f64::MIN_POSITIVE, 0.7, 1.0, 2.0, f64::MAX] {
                for top_k in [0, 1, 2, size, usize::MAX] {
                    for top_p in [0.01, 0.5, 0.9, 1.0] {
                        let config = Options { temperature, top_k, top_p, seed: Some(9) };
                        let actual = filtered_probabilities(&Floats, &bits(&logits), config.config()).unwrap();
                        let expected = reference_filtered_probabilities(&logits, config).unwrap();
                        let expected: Vec<u64> = expected.into_iter().map(f64::to_bits).collect();
                        assert_eq!(actual, expected, "size={size}, {config:?}");
                    }
                }
            }
        }
    }
}

#[test]
fn workspace_reuses_storage_and_handles_growing_and_shrinking_rows() {
    let config = Options { top_k: 2, top_p: 0.9, ..Default::default() };
    let mut workspace = SamplingWorkspace::default();
    let row = vec![1.0; 64];
    workspace.fill(&bits(&row), config.config()).unwrap();
    let initial = workspace.ranked.as_ptr();
    workspace.fill(&bits(&row), config.config()).unwrap();
    assert_eq!(initial, workspace.ranked.as_ptr());
    for size in [1, 17, 64, 257, 3, 64] {
        let row: Vec<f32> = (0..size).map(|i| (i % 7) as f32).collect();
        let plan = workspace.fill(&bits(&row), config.config()).unwrap();
        let filled = shares::probabilities(&Floats, &config.config(), &bits(&row), &plan);
        assert_eq!(widened(&filled), reference_filtered_probabilities(&row, config).unwrap());
    }
}

#[test]
fn invalid_logits_do_not_advance_random_state_after_buffer_reuse() {
    let mut sampler = sampler_of(Options { seed: Some(42), ..Default::default() });
    sample(&mut sampler, &[0.0; 16]).unwrap();
    let mut reference = sampler.clone();
    for row in [vec![], vec![f32::NAN], vec![f32::INFINITY], vec![f32::NEG_INFINITY; 5]] {
        assert!(sample(&mut sampler, &row).is_err());
    }
    for _ in 0..256 {
        assert_eq!(
            sample(&mut sampler, &[0.0; 8]).unwrap(),
            sample(&mut reference, &[0.0; 8]).unwrap()
        );
    }
}

#[test]
fn seeded_samples_match_the_legacy_cdf() {
    for top_k in [0, 1, 5, 100] {
        for top_p in [0.2, 0.9, 1.0] {
            let config = Options { top_k, top_p, seed: Some(17), ..Default::default() };
            let mut sampler = sampler_of(config);
            let mut rng = StdRng::seed_from_u64(17);
            for step in 0..128 {
                let row: Vec<f32> = (0..67).map(|i| ((i * 7 + step) % 19) as f32).collect();
                let probabilities = reference_filtered_probabilities(&row, config).unwrap();
                let draw = rng.random::<f64>();
                let mut cumulative = 0.0;
                let mut expected = None;
                for (id, probability) in probabilities.into_iter().enumerate() {
                    if probability == 0.0 { continue; }
                    expected = Some(id as i32);
                    cumulative += probability;
                    if draw < cumulative { break; }
                }
                assert_eq!(sample(&mut sampler, &row).unwrap(), expected.unwrap());
            }
        }
    }
}

#[test]
fn clearing_workspace_preserves_random_stream() {
    let mut sampler = TokenSampler::new(Options {
        seed: Some(42), top_k: 3, top_p: 0.9, ..Default::default()
    }.config()).unwrap();
    sample(&mut sampler, &[0.0; 16]).unwrap();
    let mut reference = sampler.clone();
    sampler.clear_workspace();
    for _ in 0..128 {
        assert_eq!(
            sample(&mut sampler, &[0.0; 16]).unwrap(),
            sample(&mut reference, &[0.0; 16]).unwrap()
        );
    }
}

#[test]
fn refusals_have_their_messages() {
    let message = |options: Options| match TokenSampler::new(options.config()) {
        Ok(_) => String::new(),
        Err(error) => error.to_string(),
    };
    assert_eq!(
        message(Options { temperature: 0.0, ..Default::default() }),
        "sampling temperature must be finite and positive"
    );
    assert_eq!(
        message(Options { top_p: 1.5, ..Default::default() }),
        "sampling top_p must be in (0, 1]"
    );
    let mut sampler = sampler_of(Options::default());
    assert_eq!(
        sample(&mut sampler, &[]).unwrap_err().to_string(),
        "sampling requires a nonempty i32-indexed vocabulary"
    );
    assert_eq!(
        sample(&mut sampler, &[0.0, f32::NAN]).unwrap_err().to_string(),
        "sampling logits contain NaN or positive infinity"
    );
    assert_eq!(
        sample(&mut sampler, &[f32::NEG_INFINITY]).unwrap_err().to_string(),
        "all sampling logits are masked"
    );
}

#[test]
fn samplers_without_a_seed_differ() {
    let mut first = sampler_of(Options::default());
    let mut second = sampler_of(Options::default());
    let draws = |sampler: &mut TokenSampler| -> Vec<i32> {
        (0..64).map(|_| sample(sampler, &[0.0; 1024]).unwrap()).collect()
    };
    assert_ne!(draws(&mut first), draws(&mut second));
}
