use rullm::continuous_batch::model::RequestPhase;
use rullm::continuous_batch::ActiveRequest;
use rullm::{
    ContinuousBatchConfig, ContinuousBatchScheduler, GreedyGenerationConfig, PagedKvCacheConfig,
    RequestId, ScheduledBatchKind,
};

fn generation() -> GreedyGenerationConfig {
    GreedyGenerationConfig {
        max_new_tokens: 2,
        eos_token_ids: Vec::new(),
    }
}

fn scheduler(max_active_sequences: usize, max_batch_tokens: usize) -> ContinuousBatchScheduler {
    ContinuousBatchScheduler::new(
        ContinuousBatchConfig {
            max_active_sequences,
            max_batch_tokens,
        },
        PagedKvCacheConfig {
            block_size: 8,
            num_pages: 32,
            max_sequence_length: 32,
        },
    )
    .unwrap()
}

#[test]
fn prefill_selects_the_shape_bucket_with_the_most_useful_tokens() {
    let mut scheduler = scheduler(3, 8);
    let oldest = scheduler.submit(vec![1, 2], generation()).unwrap();
    let first_full = scheduler.submit(vec![3, 4, 5], generation()).unwrap();
    let second_full = scheduler.submit(vec![6, 7, 8], generation()).unwrap();

    let batch = scheduler.schedule().unwrap().unwrap();

    assert_eq!(batch.kind, ScheduledBatchKind::Prefill);
    assert_eq!(batch.next_n(), 3);
    assert_eq!(
        batch
            .sequences
            .iter()
            .map(|row| row.request_id)
            .collect::<Vec<_>>(),
        vec![first_full, second_full]
    );
    assert!(!batch.sequences.iter().any(|row| row.request_id == oldest));
}

#[test]
fn decode_skips_unreservable_rows_without_underfilling_the_batch() {
    let mut scheduler = ContinuousBatchScheduler::new(
        ContinuousBatchConfig {
            max_active_sequences: 2,
            max_batch_tokens: 1,
        },
        PagedKvCacheConfig {
            block_size: 2,
            num_pages: 2,
            max_sequence_length: 4,
        },
    )
    .unwrap();
    let blocked = RequestId(1);
    let runnable = RequestId(2);
    for request_id in [blocked, runnable] {
        scheduler.kv_cache.create_sequence(request_id).unwrap();
        scheduler.active.insert(
            request_id.0,
            ActiveRequest {
                prompt_token_ids: vec![1],
                generation: generation(),
                sampler: None,
                generated_token_ids: Vec::new(),
                phase: RequestPhase::AwaitingDecode(9),
            },
        );
    }
    let blocked_prefill = scheduler.kv_cache.begin_append(blocked, 2).unwrap();
    scheduler
        .kv_cache
        .commit_append(blocked_prefill.id)
        .unwrap();
    let runnable_prefill = scheduler.kv_cache.begin_append(runnable, 1).unwrap();
    scheduler
        .kv_cache
        .commit_append(runnable_prefill.id)
        .unwrap();

    let batch = scheduler.schedule_decode().unwrap().unwrap();

    assert_eq!(batch.batch_size(), 1);
    assert_eq!(batch.sequences[0].request_id, runnable);
}

#[test]
fn batches_are_laid_out_row_by_row() {
    let mut scheduler = scheduler(2, 32);
    scheduler.submit((1..=9).collect(), generation()).unwrap();
    scheduler.submit((11..=19).collect(), generation()).unwrap();
    assert_eq!(scheduler.batch_token_limit(), 32);
    let batch = scheduler.schedule().unwrap().unwrap();
    assert_eq!(batch.batch_size(), 2);
    assert_eq!(batch.token_matrix(), (1..=9).chain(11..=19).collect::<Vec<i32>>());
    assert_eq!(batch.context_lengths().unwrap(), (1..=9).chain(1..=9).collect::<Vec<u32>>());
    assert_eq!(batch.flattened_block_table().unwrap(), (vec![0, 1, 2, 3], 2));
}
