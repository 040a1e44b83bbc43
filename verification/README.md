# rullm

The core of a large-language-model inference runtime, written in Verus. A function of the library
carries a contract wherever there is something to say of its result, and Verus proves that its body
meets it. The exceptions are the small functions marked `external_body`, which call other crates:
their contracts are taken on trust.

## What is in it

- `paged_kv`: physical pages of a key/value cache, handed out to sequences by reservations that are
  committed or cancelled. `paged_kv_laws` states what every operation keeps.
- `continuous_batch`: the scheduler that gathers prefill and decode rows into batches, settles
  them, and takes failed ones back; a variant that waits for device fences; an executor for a model.
- `generation`: greedy, sampled and speculative decoding, with stop sequences and cancellation.
- `logits`, `rng`: floating-point values as bit patterns, and the request-local random stream.
- `llama`: Llama and Qwen2 models as programs of tensor operations, with separate, packed and
  quantized projections. `llama::laws` relates the programs to one another.
- `gpu_inference`: layouts of grouped-query and latent attention.
- `huggingface`: configuration, checkpoints, tokenizers, chat prompts and text generation.
- `autotune`, `backends`, `runtime`: choosing a kernel plan, and errors of devices.

Floating-point numbers appear as their bits. What must be computed on them comes in through a trait
(`SamplingArithmetic`), one operation at a time. What the logic around it needs of those operations
is stated as `usable`; the implementation in `app/` has to meet it, and nothing proves that it does.

The comment above each function marked `external_body` says what is believed of the call it makes.

## Around it

`app/` reads files, performs the programs of the library on a device and holds the arithmetic.
`tests/` runs the library: models on a host interpreter, schedules, samplers and loaders.
