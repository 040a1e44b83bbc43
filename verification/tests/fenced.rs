use rullm::continuous_batch::fenced::Poll;
use rullm::generation::sampling::SamplingArithmetic;
use rullm::runtime::{RuntimeError, RuntimeErrorKind, WorkState};
use rullm::{
    BatchFence, BatchLaunchFailure, ContinuousBatchConfig, ContinuousBatchScheduler,
    FencedBatchScheduler, GreedyGenerationConfig, PagedKvCacheConfig, SamplingConfig,
    SamplingGenerationConfig, TokenSampler,
};
use std::sync::{Arc, atomic::{AtomicBool, AtomicUsize, Ordering}};

/// IEEE double-precision arithmetic on bit patterns.
struct Floats;

fn widened(values: &[u64]) -> Vec<f64> {
    values.iter().map(|&bits| f64::from_bits(bits)).collect()
}

impl SamplingArithmetic for Floats {
    fn exponential(&self, temperature: u64, logit: u32, maximum: u32) -> u64 {
        let difference = f32::from_bits(logit) as f64 - f32::from_bits(maximum) as f64;
        (difference / f64::from_bits(temperature)).exp().to_bits()
    }

    fn quotient(&self, left: u64, right: u64) -> u64 {
        (f64::from_bits(left) / f64::from_bits(right)).to_bits()
    }

    fn difference(&self, left: u64, right: u64) -> u64 {
        (f64::from_bits(left) - f64::from_bits(right)).to_bits()
    }

    fn cumulative(&self, weights: &[u64]) -> Vec<u64> {
        let mut sum = 0.0;
        widened(weights)
            .into_iter()
            .map(|weight| {
                sum += weight;
                f64::to_bits(sum)
            })
            .collect()
    }

    fn uniform(&self, numerator: u64) -> u64 {
        (numerator as f64 * (1.0 / (1_u64 << 53) as f64)).to_bits()
    }

    fn total(&self, weights: &[u64]) -> u64 {
        widened(weights).into_iter().sum::<f64>().to_bits()
    }

    fn product(&self, left: u64, right: u64) -> u64 {
        (f64::from_bits(left) * f64::from_bits(right)).to_bits()
    }
}

fn bits(values: &[f32]) -> Vec<u32> {
    values.iter().map(|value| value.to_bits()).collect()
}

struct Fence { ready: Arc<AtomicBool>, failure: bool, polls: Arc<AtomicUsize> }
impl BatchFence for Fence {
    fn poll_complete(&mut self) -> Poll<Result<(), RuntimeError>> {
        self.polls.fetch_add(1, Ordering::SeqCst);
        if self.failure { Poll::Ready(Err(RuntimeError::new(RuntimeErrorKind::Synchronization,"injected event failure".to_string()))) }
        else if self.ready.load(Ordering::Acquire) { Poll::Ready(Ok(())) }
        else { Poll::Pending }
    }
}
fn scheduler() -> FencedBatchScheduler<Fence> {
    FencedBatchScheduler::new(ContinuousBatchScheduler::new(
        ContinuousBatchConfig { max_active_sequences: 2, max_batch_tokens: 8 },
        PagedKvCacheConfig { block_size: 2, num_pages: 8, max_sequence_length: 16 },
    ).unwrap()).unwrap()
}
fn generation() -> GreedyGenerationConfig { GreedyGenerationConfig { max_new_tokens: 1, eos_token_ids: vec![] } }
fn fence(ready: &Arc<AtomicBool>) -> Fence { Fence { ready: ready.clone(), failure: false, polls: Arc::new(AtomicUsize::new(0)) } }
#[test]
fn pending_fence_never_commits_or_reclaims_pages() {
    let mut gate = scheduler(); let request = gate.submit(vec![1],generation()).unwrap();
    let ready = Arc::new(AtomicBool::new(false));
    let batch = gate.launch(|_| Ok(fence(&ready))).unwrap().unwrap();
    let before = gate.snapshot();
    assert!(gate.try_complete_logits(batch.id,&bits(&[1.0,2.0]),2,&Floats).unwrap().is_pending());
    assert!(gate.try_rollback(batch.id).unwrap().is_pending());
    assert!(gate.cancel(request).is_err());
    assert_eq!(gate.snapshot(),before);
    ready.store(true,Ordering::Release);
    assert_eq!(gate.try_complete_logits(batch.id,&bits(&[1.0,2.0]),2,&Floats).unwrap(),Poll::Ready(vec![1]));
    assert_eq!(gate.snapshot().free_kv_pages,8);
    assert_eq!(gate.pop_finished().unwrap().generated_token_ids,vec![1]);
}
#[test]
fn stale_completion_does_not_poll_the_current_event() {
    let mut gate=scheduler();gate.submit(vec![1],generation()).unwrap();
    let ready=Arc::new(AtomicBool::new(true));let f=fence(&ready);let polls=f.polls.clone();
    let batch=gate.launch(|_|Ok(f)).unwrap().unwrap();
    assert!(gate.try_complete_logits(batch.id+1,&bits(&[1.0]),1,&Floats).is_err());
    assert_eq!(polls.load(Ordering::SeqCst),0);
    assert!(gate.try_complete_logits(batch.id,&bits(&[1.0]),1,&Floats).unwrap().is_ready());
    assert!(gate.try_complete_logits(batch.id,&bits(&[1.0]),1,&Floats).is_err());
}
#[test]
fn event_error_quarantines_and_retains_reservations() {
    let mut gate=scheduler();let id=gate.submit(vec![1],generation()).unwrap();
    let ready=Arc::new(AtomicBool::new(true));let mut f=fence(&ready);f.failure=true;
    let batch=gate.launch(|_|Ok(f)).unwrap().unwrap();let before=gate.snapshot();
    assert!(gate.try_complete_logits(batch.id,&bits(&[1.0]),1,&Floats).is_err());
    assert!(gate.is_quarantined());assert_eq!(gate.snapshot(),before);
    assert!(gate.cancel(id).is_err());assert!(gate.launch(|_|Ok(fence(&ready))).is_err());
}
#[test]
fn invalid_logits_do_not_advance_a_ready_batch() {
    let mut gate=scheduler();gate.submit(vec![1],generation()).unwrap();
    let ready=Arc::new(AtomicBool::new(true));
    let f=fence(&ready);let polls=f.polls.clone();
    let batch=gate.launch(|_|Ok(f)).unwrap().unwrap();let before=gate.snapshot();
    for row in [vec![f32::NAN,1.0],vec![f32::INFINITY,1.0],vec![f32::NEG_INFINITY;2]] {
        assert_eq!(gate.try_complete_logits(batch.id,&bits(&row),2,&Floats).unwrap_err().kind(),RuntimeErrorKind::Numerical);
        assert_eq!(gate.snapshot(),before);
    }
    assert!(gate.try_complete_logits(batch.id,&bits(&[1.0,2.0]),2,&Floats).unwrap().is_ready());
    assert_eq!(polls.load(Ordering::SeqCst),1,"completed events are not polled twice");
}
#[test]
fn proven_prelaunch_oom_rolls_back_without_quarantine() {
    let mut gate=scheduler();gate.submit(vec![1],generation()).unwrap();
    assert!(gate.launch(|_|Err(BatchLaunchFailure {
        error:RuntimeError::new(RuntimeErrorKind::OutOfMemory,"prelaunch allocation failed".to_string()),
        work:WorkState::NotSubmitted,committed_cache_intact:true,
    })).is_err());
    assert!(!gate.is_quarantined());assert_eq!(gate.snapshot().free_kv_pages,8);
    let ready=Arc::new(AtomicBool::new(true));
    let batch=gate.launch(|_|Ok(fence(&ready))).unwrap().unwrap();
    assert!(gate.try_complete_logits(batch.id,&bits(&[1.0]),1,&Floats).unwrap().is_ready());
}
#[test]
fn unknown_launch_failure_never_reclaims_pages() {
    let mut gate=scheduler();gate.submit(vec![1],generation()).unwrap();
    assert!(gate.launch(|_|Err(BatchLaunchFailure {
        error:RuntimeError::new(RuntimeErrorKind::OutOfMemory,"partial submission".to_string()),
        work:WorkState::Unknown,committed_cache_intact:true,
    })).is_err());
    assert!(gate.is_quarantined());assert_eq!(gate.snapshot().free_kv_pages,7);
}
#[test]
fn token_limit_cannot_strand_pending_prefill() {
    let mut gate=scheduler();gate.submit(vec![1,2,3,4,5],generation()).unwrap();
    assert!(gate.set_batch_token_limit(4).is_err());assert!(gate.set_batch_token_limit(5).is_ok());
    let ready=Arc::new(AtomicBool::new(true));
    let batch=gate.launch(|_|Ok(fence(&ready))).unwrap().unwrap();
    assert!(gate.set_batch_token_limit(8).is_err());
    assert!(gate.try_rollback(batch.id).unwrap().is_ready());
    assert!(gate.set_batch_token_limit(8).is_ok());
}
#[test]
fn rollback_and_retry_do_not_consume_sampled_rng_state() {
    let mut gate=scheduler();
    let options=SamplingGenerationConfig { max_new_tokens:1,eos_token_ids:vec![],sampling:SamplingConfig {
        seed:Some(17),..Default::default()
    }};
    let expected=TokenSampler::new(options.sampling).unwrap().sample(&Floats,&bits(&[0.0;8])).unwrap();
    gate.submit_sampled(vec![1],options).unwrap();
    let ready=Arc::new(AtomicBool::new(true));
    let first=gate.launch(|_|Ok(fence(&ready))).unwrap().unwrap();
    assert!(gate.try_rollback(first.id).unwrap().is_ready());
    let retry=gate.launch(|_|Ok(fence(&ready))).unwrap().unwrap();
    assert!(gate.try_complete_logits(first.id,&bits(&[0.0;8]),8,&Floats).is_err());
    assert_eq!(gate.try_complete_logits(retry.id,&bits(&[0.0;8]),8,&Floats).unwrap(),Poll::Ready(vec![expected]));
}
#[test]
fn unresolved_fence_ownership_is_retained_on_drop() {
    struct OwnedFence(Arc<AtomicUsize>);
    impl Drop for OwnedFence { fn drop(&mut self) { self.0.fetch_add(1,Ordering::SeqCst); } }
    impl BatchFence for OwnedFence {
        fn poll_complete(&mut self)->Poll<Result<(),RuntimeError>> {Poll::Pending}
    }
    let dropped=Arc::new(AtomicUsize::new(0));
    let mut gate=FencedBatchScheduler::new(ContinuousBatchScheduler::new(
        ContinuousBatchConfig {max_active_sequences:1,max_batch_tokens:8},
        PagedKvCacheConfig {block_size:2,num_pages:8,max_sequence_length:16},
    ).unwrap()).unwrap();
    gate.submit(vec![1],generation()).unwrap();
    gate.launch(|_|Ok(OwnedFence(dropped.clone()))).unwrap();
    drop(gate);
    assert_eq!(dropped.load(Ordering::SeqCst),0);
}
