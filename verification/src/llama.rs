//! The decoder-only Llama architecture: its parameters, its caches and the tensor programs of its
//! layers.

use crate::generation::CausalModelLimits;
use crate::logits::{INFINITY_32, INFINITY_64};
use crate::text::text;
use vstd::prelude::*;
use vstd::std_specs::convert::FromSpecImpl;

pub mod attention;
pub mod awq;
pub mod cache;
pub mod entries;
pub mod heads;
pub mod laws;
pub mod meaning;
pub mod model;
pub mod packed;
pub mod packed_meaning;
pub mod packed_model;
pub mod program;
pub mod standard;
pub mod steps;

verus! {

/// Architecture parameters for a decoder-only Llama model.
#[derive(Clone, Copy, Debug, PartialEq, Eq)]
pub struct LlamaConfig {
    pub vocab_size: usize,
    pub d_model: usize,
    pub d_ff: usize,
    pub num_hidden_layers: usize,
    pub num_query_heads: usize,
    pub num_kv_heads: usize,
    pub max_sequence_length: usize,
    /// The bits of a binary64 number.
    pub rms_norm_epsilon: u64,
    /// The bits of a binary32 number.
    pub rope_theta: u32,
}

#[derive(Clone, Copy, Debug, PartialEq, Eq, Structural)]
pub enum LlamaConfigError {
    InvalidDimension,
    HeadDimension,
    RotaryDimension,
    GroupedQueryHeads,
    RmsNormEpsilon,
    RopeTheta,
}

impl LlamaConfigError {
    /// The message.
    pub open spec fn message(self) -> Seq<char> {
        match self {
            LlamaConfigError::InvalidDimension => "all Llama dimensions must be non-zero"@,
            LlamaConfigError::HeadDimension => "d_model must be divisible by num_query_heads"@,
            LlamaConfigError::RotaryDimension =>
                "the query head dimension must be even for RoPE"@,
            LlamaConfigError::GroupedQueryHeads =>
                "num_query_heads must be divisible by num_kv_heads"@,
            LlamaConfigError::RmsNormEpsilon => "RMS norm epsilon must be finite and positive"@,
            LlamaConfigError::RopeTheta => "RoPE theta must be finite and positive"@,
        }
    }

    /// The message.
    pub fn to_string(&self) -> (message: String)
        ensures
            message@ == self.message(),
    {
        match self {
            LlamaConfigError::InvalidDimension => text("all Llama dimensions must be non-zero"),
            LlamaConfigError::HeadDimension => text("d_model must be divisible by num_query_heads"),
            LlamaConfigError::RotaryDimension => text(
                "the query head dimension must be even for RoPE",
            ),
            LlamaConfigError::GroupedQueryHeads => text(
                "num_query_heads must be divisible by num_kv_heads",
            ),
            LlamaConfigError::RmsNormEpsilon => text("RMS norm epsilon must be finite and positive"),
            LlamaConfigError::RopeTheta => text("RoPE theta must be finite and positive"),
        }
    }
}

impl LlamaConfig {
    /// What is wrong with the parameters: the first fault that they have.
    pub open spec fn fault(self) -> Option<LlamaConfigError> {
        if self.vocab_size == 0 || self.d_model == 0 || self.d_ff == 0 || self.num_hidden_layers
            == 0 || self.num_query_heads == 0 || self.num_kv_heads == 0 || self.max_sequence_length
            == 0 {
            Some(LlamaConfigError::InvalidDimension)
        } else if self.d_model as int % self.num_query_heads as int != 0 {
            Some(LlamaConfigError::HeadDimension)
        } else if self.heads_width() % 2 != 0 {
            Some(LlamaConfigError::RotaryDimension)
        } else if self.num_query_heads as int % self.num_kv_heads as int != 0 {
            Some(LlamaConfigError::GroupedQueryHeads)
        } else if !(0 < self.rms_norm_epsilon < INFINITY_64) {
            Some(LlamaConfigError::RmsNormEpsilon)
        } else if !(0 < self.rope_theta < INFINITY_32) {
            Some(LlamaConfigError::RopeTheta)
        } else {
            None
        }
    }

    /// The width of one query head.
    pub open spec fn heads_width(self) -> int {
        self.d_model as int / self.num_query_heads as int
    }

    pub fn validate(&self) -> (result: Result<(), LlamaConfigError>)
        ensures
            match result {
                Ok(_) => self.fault() is None,
                Err(error) => self.fault() == Some(error),
            },
    {
        if self.vocab_size == 0 || self.d_model == 0 || self.d_ff == 0 || self.num_hidden_layers
            == 0 || self.num_query_heads == 0 || self.num_kv_heads == 0 || self.max_sequence_length
            == 0 {
            return Err(LlamaConfigError::InvalidDimension);
        }
        if self.d_model % self.num_query_heads != 0 {
            return Err(LlamaConfigError::HeadDimension);
        }
        let head_dimension: usize = self.d_model / self.num_query_heads;
        if head_dimension % 2 != 0 {
            return Err(LlamaConfigError::RotaryDimension);
        }
        if self.num_query_heads % self.num_kv_heads != 0 {
            return Err(LlamaConfigError::GroupedQueryHeads);
        }
        if self.rms_norm_epsilon == 0 || self.rms_norm_epsilon >= INFINITY_64 {
            return Err(LlamaConfigError::RmsNormEpsilon);
        }
        if self.rope_theta == 0 || self.rope_theta >= INFINITY_32 {
            return Err(LlamaConfigError::RopeTheta);
        }
        Ok(())
    }

    pub fn head_dimension(&self) -> (width: usize)
        requires
            self.num_query_heads > 0,
        ensures
            width == self.heads_width(),
    {
        self.d_model / self.num_query_heads
    }
}

impl From<&LlamaConfig> for CausalModelLimits {
    fn from(config: &LlamaConfig) -> (limits: Self) {
        CausalModelLimits {
            vocab_size: config.vocab_size,
            max_sequence_length: config.max_sequence_length,
        }
    }
}

impl FromSpecImpl<&LlamaConfig> for CausalModelLimits {
    open spec fn obeys_from_spec() -> bool {
        true
    }

    open spec fn from_spec(config: &LlamaConfig) -> CausalModelLimits {
        CausalModelLimits {
            vocab_size: config.vocab_size,
            max_sequence_length: config.max_sequence_length,
        }
    }
}

/// The query heads of a valid configuration fall into groups of equal size, one per KV head, and
/// the heads together are as wide as the model.
pub proof fn law_heads_cover_the_model(config: LlamaConfig)
    requires
        config.fault() is None,
    ensures
        config.num_query_heads * config.heads_width() == config.d_model,
        config.num_kv_heads * (config.num_query_heads as int / config.num_kv_heads as int)
            == config.num_query_heads,
        config.num_kv_heads * config.heads_width() <= config.d_model,
        config.heads_width() > 0,
{
    let d = config.d_model as int;
    let h = config.num_query_heads as int;
    let k = config.num_kv_heads as int;
    assert(h * (d / h) == d) by (nonlinear_arith)
        requires
            h > 0,
            d % h == 0,
    ;
    assert(k * (h / k) == h) by (nonlinear_arith)
        requires
            k > 0,
            h % k == 0,
    ;
    assert(d / h > 0) by (nonlinear_arith)
        requires
            h * (d / h) == d,
            d > 0,
            h > 0,
    ;
    assert(h / k > 0) by (nonlinear_arith)
        requires
            k * (h / k) == h,
            h > 0,
            k > 0,
    ;
    assert(k <= h) by (nonlinear_arith)
        requires
            k * (h / k) == h,
            h / k > 0,
            k > 0,
    ;
    assert(k * (d / h) <= h * (d / h)) by (nonlinear_arith)
        requires
            k <= h,
            d / h > 0,
    ;
}

} // verus!
