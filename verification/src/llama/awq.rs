//! The causal language model over quantized projections. A projection that is packed and one that
//! is dense map the same features, so a pass does not depend on how the weights are held.

use crate::llama::cache::LlamaKvCache;
use crate::llama::model::{
    all_stored, embedded, last_position, llama_variant, qwen2_variant, LlamaForCausalLm, ModelPass,
};
use crate::llama::program::{term, Program};
use crate::llama::steps::added;
use crate::llama::{LlamaConfig, LlamaConfigError};
use vstd::prelude::*;

verus! {

#[derive(Debug)]
pub struct AwqLlamaForCausalLm {
    pub model: LlamaForCausalLm,
}

impl AwqLlamaForCausalLm {
    /// The model of a configuration, in the Qwen2 or the Llama variant.
    pub fn init(config: &LlamaConfig, qwen2: bool) -> (result: Result<Self, LlamaConfigError>)
        ensures
            match result {
                Ok(awq) => config.fault() is None && awq.model.wf() && awq.model.is_of(
                    *config,
                    if qwen2 {
                        qwen2_variant()
                    } else {
                        llama_variant()
                    },
                ),
                Err(error) => config.fault() == Some(error),
            },
    {
        let model = if qwen2 {
            LlamaForCausalLm::init_qwen2(config)
        } else {
            LlamaForCausalLm::init(config)
        };
        match model {
            Ok(model) => Ok(AwqLlamaForCausalLm { model }),
            Err(error) => Err(error),
        }
    }

    pub fn new_cache(&self) -> (cache: LlamaKvCache)
        requires
            self.model.wf(),
        ensures
            cache.wf(),
            cache.layers@.len() == self.model.layers@.len(),
            cache.position == 0,
            cache.max_sequence_length == self.model.max_sequence_length,
            forall|i: int|
                0 <= i < cache.layers@.len() ==> (#[trigger] cache.layers@[i]).stored is None
                    && cache.layers@[i].storage_capacity == 0,
    {
        self.model.new_cache()
    }

    /// Full causal prefill. Returns logits in `[batch, sequence, vocabulary]` order.
    pub fn forward(&self, program: &mut Program, tokens: usize) -> (id: usize)
        requires
            self.model.wf(),
            tokens < old(program)@.len(),
            old(program)@[tokens as int].dims.len() == 2,
            old(program)@[tokens as int].dims[1] <= self.model.max_sequence_length,
        ensures
            added(
                old(program)@,
                final(program)@,
                id,
                self.model.result(term(old(program)@, tokens as int)),
            ),
            final(program)@[id as int].dims == seq![
                old(program)@[tokens as int].dims[0],
                old(program)@[tokens as int].dims[1],
                self.model.lm_head.outputs,
            ],
    {
        self.model.forward(program, tokens)
    }

    /// Appends one or more tokens to a KV cache and returns logits for only those tokens.
    pub fn forward_cached(
        &self,
        program: &mut Program,
        tokens: usize,
        cache: &mut LlamaKvCache,
    ) -> (pass: ModelPass)
        requires
            self.model.wf(),
            tokens < old(program)@.len(),
            self.model.takes(*old(cache), old(program)@[tokens as int].dims),
        ensures
            self.model.advanced(*old(cache), *final(cache), old(program)@[tokens as int].dims),
            added(
                old(program)@,
                final(program)@,
                pass.output,
                self.model.logits(
                    self.model.cached_hidden(
                        term(old(program)@, tokens as int),
                        old(cache).layers@,
                    ),
                ),
            ),
            pass.stores@.len() == self.model.layers@.len(),
            all_stored(
                final(program)@,
                pass.stores@,
                self.model.layers@,
                old(cache).layers@,
                embedded(term(old(program)@, tokens as int), self.model.embed_tokens.width),
            ),
    {
        self.model.forward_cached(program, tokens, cache)
    }

    /// Cached prefill/decode that projects only the final sequence position
    /// into vocabulary logits. Autoregressive generation never consumes the
    /// earlier prompt logits, so this avoids a large redundant LM-head GEMM.
    pub fn forward_cached_last(
        &self,
        program: &mut Program,
        tokens: usize,
        cache: &mut LlamaKvCache,
    ) -> (pass: ModelPass)
        requires
            self.model.wf(),
            tokens < old(program)@.len(),
            self.model.takes(*old(cache), old(program)@[tokens as int].dims),
            old(program)@[tokens as int].dims[1] > 0,
        ensures
            self.model.advanced(*old(cache), *final(cache), old(program)@[tokens as int].dims),
            added(
                old(program)@,
                final(program)@,
                pass.output,
                self.model.logits(
                    last_position(
                        self.model.cached_hidden(
                            term(old(program)@, tokens as int),
                            old(cache).layers@,
                        ),
                    ),
                ),
            ),
            pass.stores@.len() == self.model.layers@.len(),
            all_stored(
                final(program)@,
                pass.stores@,
                self.model.layers@,
                old(cache).layers@,
                embedded(term(old(program)@, tokens as int), self.model.embed_tokens.width),
            ),
    {
        self.model.forward_cached_last(program, tokens, cache)
    }
}

} // verus!
