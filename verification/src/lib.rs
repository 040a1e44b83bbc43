//! Verified core of a large-language-model inference runtime.
//!
//! Every item of this crate is checked by Verus against the contract written on it. Tensor
//! kernels, device streams and file access live outside; they exchange plain values with the
//! library.

pub mod autotune;
pub mod autotune_laws;
pub mod backends;
pub mod continuous_batch;
pub mod generation;
pub mod gpu_inference;
pub mod huggingface;
pub mod llama;
pub mod logits;
pub mod names;
pub mod ordered;
pub mod paged_kv;
pub mod paged_kv_laws;
pub mod rng;
pub mod runtime;
pub mod sums;
pub mod text;

pub use continuous_batch::batch::{
    ContinuousBatchConfig, ContinuousBatchError, ContinuousBatchOptions, KvAdmissionPolicy,
    ScheduledBatch, ScheduledBatchKind, ScheduledSequence,
};
pub use continuous_batch::device::{DeviceBatchExecutor, DeviceBatchModel, ExecutedBatch};
pub use continuous_batch::fenced::{BatchFence, BatchLaunchFailure, FencedBatchScheduler};
pub use continuous_batch::{
    CancelledGeneration, ContinuousBatchScheduler, ContinuousBatchSnapshot, FinishedGeneration,
};
pub use generation::control::{
    ControlledGenerationOutput, GenerationCancellation, GenerationControl, GenerationEvent,
    GenerationFinishReason,
};
pub use generation::sampling::{SamplingConfig, SamplingGenerationConfig, TokenSampler};
pub use generation::speculative::branch::SpeculativeModel;
pub use generation::speculative::{
    generate_causal_speculative, generate_causal_speculative_stream, SpeculativeGenerationConfig,
    SpeculativeGenerationOutput, SpeculativeStats,
};
pub use generation::variants::{
    generate_greedy_awq, generate_greedy_packed, generate_greedy_packed_ruda, generate_sampled_awq,
    generate_sampled_packed, generate_sampled_packed_ruda,
};
pub use generation::{
    generate_causal_greedy, generate_causal_sampled, generate_causal_sampled_stream,
    generate_greedy, generate_sampled, CausalModel, CausalModelLimits, GenerationError,
    GreedyGenerationConfig, TokenGenerationOutput,
};
pub use huggingface::awq::{AwqCheckpoint, AwqQuantizationConfig};
pub use huggingface::chat::{Qwen2ChatMessage, Qwen2ChatRole};
pub use huggingface::directory::{
    load_huggingface_awq_qwen2, load_huggingface_llama, load_huggingface_qwen2,
};
pub use huggingface::loading::HuggingFaceLoadReport;
pub use huggingface::pipeline::{
    load_huggingface_awq_qwen2_pipeline, load_huggingface_llama_pipeline,
    load_huggingface_qwen2_pipeline, GeneratedText, HuggingFaceAwqQwen2Pipeline,
    HuggingFaceLlamaPipeline, HuggingFaceQwen2Pipeline, LoadedHuggingFaceAwqQwen2,
    LoadedHuggingFaceLlama, LoadedHuggingFaceQwen2,
};
pub use huggingface::HuggingFaceLoadError;
pub use llama::awq::AwqLlamaForCausalLm;
pub use llama::cache::{LlamaKvCache, LlamaLayerCache};
pub use llama::model::LlamaForCausalLm;
pub use llama::packed_model::PackedLlamaForCausalLm;
pub use llama::standard::{LlamaAttention, LlamaDecoderLayer, LlamaFeedForward};
pub use llama::{LlamaConfig, LlamaConfigError};
pub use paged_kv::{
    KvPageId, KvReservationId, PagedKvAppendReservation, PagedKvCacheConfig, PagedKvCacheManager,
    PagedKvCacheSnapshot, PagedKvError, PagedKvSequenceSnapshot, RequestId,
};
