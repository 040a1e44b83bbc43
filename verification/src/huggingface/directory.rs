//! Loading model directories: in what order things are read, checked and uploaded.
//!
//! Reading files and filling weights is work for the caller, who hands it in as closures. A model
//! that is being filled goes through them by value.

use crate::huggingface::awq::AwqCheckpoint;
use crate::huggingface::awq_model::{
    load_checkpoint, model_fault, model_planned, AwqGroups, AwqModelPlan,
};
use crate::huggingface::config::{
    convert_config, convert_qwen2_config, converted, generation_eos, llama_fault,
    load_generation_eos_token_ids, qwen2_fault, HuggingFaceLlamaConfig, HuggingFaceTokenIds,
};
use crate::huggingface::loading::{
    needed_tables, repeated, rotary_plan, settled, table_chosen, Family, HuggingFaceLoadReport,
    RotaryPlan, ShardLedger,
};
use crate::huggingface::pipeline::{
    LoadedHuggingFaceAwqQwen2, LoadedHuggingFaceLlama, LoadedHuggingFaceQwen2,
};
use crate::huggingface::tensors::DType;
use crate::huggingface::HuggingFaceLoadError;
use crate::llama::awq::AwqLlamaForCausalLm;
use crate::llama::model::{llama_variant, qwen2_variant, LlamaForCausalLm, Variant};
use crate::llama::LlamaConfig;
use crate::names::texts;
use crate::text::text;
use std::path::PathBuf;
use vstd::prelude::*;

verus! {

/// The paths in the model of the tensors that a weight file supplied: those that went into the
/// model, and those that it had no place for.
#[derive(Debug)]
pub struct Supplied {
    pub applied: Vec<String>,
    pub unused: Vec<String>,
}

/// Why a weight file could not be loaded, and how its path reads in messages.
#[derive(Debug)]
pub struct ShardFailure {
    pub shown: String,
    pub reason: String,
}

/// What some files supplied altogether, where none of them supplied a tensor again.
pub open spec fn tally(supplied: Seq<Supplied>) -> Option<(Set<Seq<char>>, Set<Seq<char>>)>
    decreases supplied.len(),
{
    if supplied.len() == 0 {
        Some((Set::empty(), Set::empty()))
    } else {
        match tally(supplied.drop_last()) {
            None => None,
            Some((applied, unused)) => {
                let last = supplied.last();
                if repeated(applied, texts(last.applied@)) is Some {
                    None
                } else {
                    Some(
                        (
                            applied.union(texts(last.applied@).to_set()),
                            unused.union(texts(last.unused@).to_set()),
                        ),
                    )
                }
            },
        }
    }
}

/// Loading files one after the other: the model before each and after the last, and what they
/// supplied.
#[verifier::reject_recursive_types(M)]
pub struct ShardTrace<M> {
    pub models: Seq<M>,
    pub supplied: Seq<Supplied>,
}

/// The first files were loaded into a model one after the other.
pub open spec fn fills<M, L: Fn(M, &PathBuf) -> (M, Result<Supplied, ShardFailure>)>(
    load: L,
    model: M,
    files: Seq<PathBuf>,
    trace: ShardTrace<M>,
) -> bool {
    &&& trace.models.len() == trace.supplied.len() + 1
    &&& trace.supplied.len() <= files.len()
    &&& trace.models[0] == model
    &&& forall|i: int|
        0 <= i < trace.supplied.len() ==> call_ensures(
            load,
            (trace.models[i], &files[i]),
            (trace.models[i + 1], Ok(#[trigger] trace.supplied[i])),
        )
}

/// The message for a file that could not be loaded.
pub open spec fn shard_message(family: Family, failure: ShardFailure) -> Seq<char> {
    (match family {
        Family::Llama => "cannot load Hugging Face shard "@,
        Family::Qwen2 => "cannot load Hugging Face Qwen2 shard "@,
    }) + failure.shown@ + ": "@ + failure.reason@
}

/// Loading stopped at a file: it could not be loaded, or it supplied a tensor again.
pub open spec fn stops<M, L: Fn(M, &PathBuf) -> (M, Result<Supplied, ShardFailure>)>(
    family: Family,
    load: L,
    files: Seq<PathBuf>,
    trace: ShardTrace<M>,
    message: Seq<char>,
) -> bool {
    let n = trace.supplied.len() as int;
    ||| n < files.len() && tally(trace.supplied) is Some && exists|after: M, failure: ShardFailure|
        #[trigger] call_ensures(load, (trace.models[n], &files[n]), (after, Err(failure)))
            && message == shard_message(family, failure)
    ||| n > 0 && (tally(trace.supplied.drop_last()) matches Some((applied, _)) && (repeated(
        applied,
        texts(trace.supplied.last().applied@),
    ) matches Some(name) && message == "tensor "@ + name
        + " was supplied by more than one Safetensors shard"@))
}

/// What loading all files into a model comes to.
pub open spec fn filled<M, L: Fn(M, &PathBuf) -> (M, Result<Supplied, ShardFailure>)>(
    family: Family,
    load: L,
    model: M,
    files: Seq<PathBuf>,
    result: Result<(M, ShardLedger), HuggingFaceLoadError>,
) -> bool {
    exists|trace: ShardTrace<M>| #[trigger]
        fills(load, model, files, trace) && match result {
            Ok((full, ledger)) => {
                &&& trace.supplied.len() == files.len()
                &&& full == trace.models.last()
                &&& ledger.wf()
                &&& tally(trace.supplied) == Some((ledger.applied@.dom(), ledger.unused@.dom()))
            },
            Err(error) => stops(family, load, files, trace, error.0@),
        }
}

fn shard_error(family: Family, failure: ShardFailure) -> (error: HuggingFaceLoadError)
    ensures
        error.0@ == shard_message(family, failure),
{
    let mut message = match family {
        Family::Llama => text("cannot load Hugging Face shard "),
        Family::Qwen2 => text("cannot load Hugging Face Qwen2 shard "),
    };
    message.append(failure.shown.as_str());
    message.append(": ");
    message.append(failure.reason.as_str());
    HuggingFaceLoadError(message)
}

/// Load every file into a model. No tensor may be supplied twice.
pub fn load_shards<M, L: Fn(M, &PathBuf) -> (M, Result<Supplied, ShardFailure>)>(
    family: Family,
    model: M,
    files: &Vec<PathBuf>,
    load: &L,
) -> (result: Result<(M, ShardLedger), HuggingFaceLoadError>)
    requires
        forall|m: M, file: &PathBuf| #[trigger] call_requires(*load, (m, file)),
    ensures
        filled(family, *load, model, files@, result),
{
    let ghost mut trace = ShardTrace { models: seq![model], supplied: Seq::empty() };
    let ghost start = model;
    let mut current = model;
    let mut ledger = ShardLedger::new();
    let mut i: usize = 0;
    while i < files.len()
        invariant
            i <= files@.len(),
            trace.supplied.len() == i,
            start == model,
            fills(*load, start, files@, trace),
            current == trace.models[i as int],
            ledger.wf(),
            tally(trace.supplied) == Some((ledger.applied@.dom(), ledger.unused@.dom())),
            forall|m: M, file: &PathBuf| #[trigger] call_requires(*load, (m, file)),
        decreases files@.len() - i,
    {
        let (after, answer) = load(current, &files[i]);
        let supplied = match answer {
            Ok(supplied) => supplied,
            Err(failure) => {
                let error = shard_error(family, failure);
                assert(stops(family, *load, files@, trace, error.0@));
                return Err(error);
            },
        };
        let ghost longer = ShardTrace {
            models: trace.models.push(after),
            supplied: trace.supplied.push(supplied),
        };
        proof {
            assert(longer.supplied.drop_last() =~= trace.supplied);
            assert forall|k: int| 0 <= k < longer.supplied.len() implies call_ensures(
                *load,
                (longer.models[k], &files@[k]),
                (longer.models[k + 1], Ok(#[trigger] longer.supplied[k])),
            ) by {
                if k < i {
                    assert(longer.supplied[k] == trace.supplied[k]);
                }
            }
            assert(fills(*load, start, files@, longer));
        }
        match ledger.record(&supplied.applied, &supplied.unused) {
            Ok(_) => {},
            Err(error) => {
                assert(stops(family, *load, files@, longer, error.0@));
                return Err(error);
            },
        }
        proof {
            trace = longer;
        }
        current = after;
        i += 1;
    }
    Ok((current, ledger))
}

/// The head of a model after tied embeddings took its place, where they are tied.
pub open spec fn tied_up<M, T: FnOnce(M) -> M>(tied: bool, tie: T, before: M, after: M) -> bool {
    if tied {
        call_ensures(tie, (before,), after)
    } else {
        after == before
    }
}

/// What filling a model and holding it against what it expects comes to: the model, and the number
/// of tensors that went into it.
pub open spec fn accounted_for<
    M,
    L: Fn(M, &PathBuf) -> (M, Result<Supplied, ShardFailure>),
    T: FnOnce(M) -> M,
>(
    family: Family,
    config: LlamaConfig,
    tied: bool,
    load: L,
    tie: T,
    empty: M,
    files: Seq<PathBuf>,
    result: Result<(M, usize), HuggingFaceLoadError>,
) -> bool {
    exists|shards: Result<(M, ShardLedger), HuggingFaceLoadError>| #[trigger]
        filled(family, load, empty, files, shards) && match shards {
            Err(error) => result == Err::<(M, usize), HuggingFaceLoadError>(error),
            Ok((full, ledger)) => exists|model: M| #[trigger]
                tied_up(tied, tie, full, model) && match result {
                    Ok((loaded, count)) => loaded == model && settled(
                        family,
                        config,
                        tied,
                        ledger,
                        Ok(count),
                    ),
                    Err(error) => settled(family, config, tied, ledger, Err(error.0@)),
                },
        }
}

/// Fill a model from its files, and account for every tensor.
fn load_weights<
    M,
    L: Fn(M, &PathBuf) -> (M, Result<Supplied, ShardFailure>),
    T: FnOnce(M) -> M,
>(
    family: Family,
    config: &LlamaConfig,
    tied: bool,
    empty: M,
    files: &Vec<PathBuf>,
    load: &L,
    tie: T,
) -> (result: Result<(M, usize), HuggingFaceLoadError>)
    requires
        forall|m: M, file: &PathBuf| #[trigger] call_requires(*load, (m, file)),
        forall|m: M| #[trigger] call_requires(tie, (m,)),
    ensures
        accounted_for(family, *config, tied, *load, tie, empty, files@, result),
{
    let ghost given = empty;
    let shards = load_shards(family, empty, files, load);
    let ghost found = shards;
    let (full, ledger) = match shards {
        Ok(shards) => shards,
        Err(error) => {
            assert(filled(family, *load, given, files@, found));
            return Err(error);
        },
    };
    let ghost counted = ledger;
    let ghost before = full;
    let model = if tied {
        tie(full)
    } else {
        full
    };
    assert(tied_up(tied, tie, before, model));
    match ledger.settle(family, config.num_hidden_layers, tied) {
        Ok(count) => {
            assert(settled(family, *config, tied, counted, Ok(count)));
            Ok((model, count))
        },
        Err(error) => {
            assert(settled(family, *config, tied, counted, Err(error.0@)));
            Err(error)
        },
    }
}

/// What finding the files of a model and filling it from them comes to.
pub open spec fn model_loaded<
    M,
    W: FnOnce() -> Result<Vec<PathBuf>, HuggingFaceLoadError>,
    B: FnOnce(LlamaForCausalLm) -> M,
    L: Fn(M, &PathBuf) -> (M, Result<Supplied, ShardFailure>),
    T: FnOnce(M) -> M,
>(
    family: Family,
    config: LlamaConfig,
    tied: bool,
    find_files: W,
    build: B,
    load: L,
    tie: T,
    result: Result<(M, usize, Vec<PathBuf>), HuggingFaceLoadError>,
) -> bool {
    exists|found: Result<Vec<PathBuf>, HuggingFaceLoadError>| #[trigger]
        call_ensures(find_files, (), found) && match found {
            Err(error) => result == Err::<(M, usize, Vec<PathBuf>), HuggingFaceLoadError>(error),
            Ok(files) => exists|
                shape: LlamaForCausalLm,
                empty: M,
                weights: Result<(M, usize), HuggingFaceLoadError>,
            |
                shape.wf() && shape.is_of(config, variant_of(family)) && #[trigger] call_ensures(
                    build,
                    (shape,),
                    empty,
                ) && #[trigger] accounted_for(
                    family,
                    config,
                    tied,
                    load,
                    tie,
                    empty,
                    files@,
                    weights,
                ) && match weights {
                    Ok((model, count)) => result == Ok::<
                        (M, usize, Vec<PathBuf>),
                        HuggingFaceLoadError,
                    >((model, count, files)),
                    Err(error) => result == Err::<(M, usize, Vec<PathBuf>), HuggingFaceLoadError>(
                        error,
                    ),
                },
        }
}

/// The variant of the decoder that a family uses.
pub open spec fn variant_of(family: Family) -> Variant {
    match family {
        Family::Llama => llama_variant(),
        Family::Qwen2 => qwen2_variant(),
    }
}

fn load_model<
    M,
    W: FnOnce() -> Result<Vec<PathBuf>, HuggingFaceLoadError>,
    B: FnOnce(LlamaForCausalLm) -> M,
    L: Fn(M, &PathBuf) -> (M, Result<Supplied, ShardFailure>),
    T: FnOnce(M) -> M,
>(
    family: Family,
    config: &LlamaConfig,
    tied: bool,
    find_files: W,
    build: B,
    load: &L,
    tie: T,
) -> (result: Result<(M, usize, Vec<PathBuf>), HuggingFaceLoadError>)
    requires
        config.fault() is None,
        call_requires(find_files, ()),
        forall|shape: LlamaForCausalLm| #[trigger] call_requires(build, (shape,)),
        forall|m: M, file: &PathBuf| #[trigger] call_requires(*load, (m, file)),
        forall|m: M| #[trigger] call_requires(tie, (m,)),
    ensures
        model_loaded(family, *config, tied, find_files, build, *load, tie, result),
{
    let found = find_files();
    let ghost given = found;
    assert(call_ensures(find_files, (), given));
    let files = match found {
        Ok(files) => files,
        Err(error) => {
            return Err(error);
        },
    };
    let initialized = match family {
        Family::Llama => LlamaForCausalLm::init(config),
        Family::Qwen2 => LlamaForCausalLm::init_qwen2(config),
    };
    let shape = match initialized {
        Ok(shape) => shape,
        Err(error) => {
            assert(false);
            return Err(HuggingFaceLoadError(error.to_string()));
        },
    };
    let ghost described = shape;
    let empty = build(shape);
    let ghost start = empty;
    assert(call_ensures(build, (described,), start));
    let weights = load_weights(family, config, tied, empty, &files, load, tie);
    let ghost filled_weights = weights;
    assert(accounted_for(
        family,
        *config,
        tied,
        *load,
        tie,
        start,
        files@,
        filled_weights,
    ));
    match weights {
        Ok((model, count)) => Ok((model, count, files)),
        Err(error) => Err(error),
    }
}

/// What a caller does to load a Llama directory: find the weight files, give the decoder weights,
/// load a file into it, let the embeddings stand for the head, and wait for the device.
pub struct LlamaSteps<W, B, L, T, S> {
    pub find_files: W,
    pub build: B,
    pub load: L,
    pub tie: T,
    pub sync: S,
}

/// What loading a Llama directory comes to.
pub open spec fn llama_loaded<
    M,
    W: FnOnce() -> Result<Vec<PathBuf>, HuggingFaceLoadError>,
    B: FnOnce(LlamaForCausalLm) -> M,
    L: Fn(M, &PathBuf) -> (M, Result<Supplied, ShardFailure>),
    T: FnOnce(M) -> M,
    S: FnOnce() -> Result<(), String>,
>(
    config_path: PathBuf,
    source: HuggingFaceLlamaConfig,
    steps: LlamaSteps<W, B, L, T, S>,
    result: Result<LoadedHuggingFaceLlama<M>, HuggingFaceLoadError>,
) -> bool {
    exists|settings: Result<(LlamaConfig, bool, Vec<i32>), HuggingFaceLoadError>| #[trigger]
        converted(source, llama_fault(source), settings) && match settings {
            Err(error) => result == Err::<LoadedHuggingFaceLlama<M>, HuggingFaceLoadError>(error),
            Ok((config, tied, eos)) => exists|
                model: Result<(M, usize, Vec<PathBuf>), HuggingFaceLoadError>,
            | #[trigger]
                model_loaded(
                    Family::Llama,
                    config,
                    tied,
                    steps.find_files,
                    steps.build,
                    steps.load,
                    steps.tie,
                    model,
                ) && match model {
                    Err(error) => result == Err::<LoadedHuggingFaceLlama<M>, HuggingFaceLoadError>(
                        error,
                    ),
                    Ok((model, count, files)) => exists|synced: Result<(), String>| #[trigger]
                        call_ensures(steps.sync, (), synced) && match synced {
                            Err(reason) => result matches Err(error) && error.0@
                                == "Ruda weight upload did not complete: "@ + reason@,
                            Ok(_) => result == Ok::<
                                LoadedHuggingFaceLlama<M>,
                                HuggingFaceLoadError,
                            >(
                                LoadedHuggingFaceLlama {
                                    model,
                                    config,
                                    default_eos_token_ids: eos,
                                    report: HuggingFaceLoadReport {
                                        config_path,
                                        weight_files: files,
                                        applied_tensors: count,
                                        tied_word_embeddings: tied,
                                    },
                                },
                            ),
                        },
                },
        }
}

fn upload_error(message: &str, reason: &String) -> (error: HuggingFaceLoadError)
    ensures
        error.0@ == message@ + reason@,
{
    let mut message = text(message);
    message.append(reason.as_str());
    HuggingFaceLoadError(message)
}

/// Load an unquantized Hugging Face Llama directory, given what its `config.json` says. Every
/// expected tensor must be present and every source tensor must be consumed; incompatible Llama
/// variants are rejected instead of silently approximated.
pub fn load_huggingface_llama<
    M,
    W: FnOnce() -> Result<Vec<PathBuf>, HuggingFaceLoadError>,
    B: FnOnce(LlamaForCausalLm) -> M,
    L: Fn(M, &PathBuf) -> (M, Result<Supplied, ShardFailure>),
    T: FnOnce(M) -> M,
    S: FnOnce() -> Result<(), String>,
>(
    config_path: PathBuf,
    source: HuggingFaceLlamaConfig,
    steps: LlamaSteps<W, B, L, T, S>,
) -> (result: Result<LoadedHuggingFaceLlama<M>, HuggingFaceLoadError>)
    requires
        call_requires(steps.find_files, ()),
        forall|shape: LlamaForCausalLm| #[trigger] call_requires(steps.build, (shape,)),
        forall|m: M, file: &PathBuf| #[trigger] call_requires(steps.load, (m, file)),
        forall|m: M| #[trigger] call_requires(steps.tie, (m,)),
        call_requires(steps.sync, ()),
    ensures
        llama_loaded(config_path, source, steps, result),
{
    let ghost given = source;
    let settings = convert_config(source);
    let ghost read = settings;
    assert(converted(given, llama_fault(given), read));
    let (config, tied, eos) = match settings {
        Ok(settings) => settings,
        Err(error) => {
            return Err(error);
        },
    };
    let LlamaSteps { find_files, build, load, tie, sync } = steps;
    let filled_model = load_model(
        Family::Llama,
        &config,
        tied,
        find_files,
        build,
        &load,
        tie,
    );
    let ghost loaded_model = filled_model;
    assert(model_loaded(
        Family::Llama,
        config,
        tied,
        steps.find_files,
        steps.build,
        steps.load,
        steps.tie,
        loaded_model,
    ));
    let (model, applied_tensors, weight_files) = match filled_model {
        Ok(parts) => parts,
        Err(error) => {
            return Err(error);
        },
    };
    let synced = sync();
    let ghost answer = synced;
    assert(call_ensures(steps.sync, (), answer));
    match synced {
        Ok(_) => Ok(
            LoadedHuggingFaceLlama {
                model,
                config,
                default_eos_token_ids: eos,
                report: HuggingFaceLoadReport {
                    config_path,
                    weight_files,
                    applied_tensors,
                    tied_word_embeddings: tied,
                },
            },
        ),
        Err(reason) => Err(upload_error("Ruda weight upload did not complete: ", &reason)),
    }
}

/// What a caller does to load a Qwen2 directory: as for Llama, and besides read the end tokens of
/// its generation configuration, tell the types of its layers, and give layers rotary tables.
pub struct Qwen2Steps<G, W, B, L, T, Y, R, S> {
    pub read_generation: G,
    pub find_files: W,
    pub build: B,
    pub load: L,
    pub tie: T,
    pub layer_types: Y,
    pub set_tables: R,
    pub sync: S,
}

/// Layers were given rotary tables of the types of their weights.
pub open spec fn retabled<
    M,
    Y: FnOnce(&M) -> Vec<(DType, DType)>,
    R: FnOnce(M, RotaryPlan) -> M,
>(layer_types: Y, set_tables: R, before: M, after: M) -> bool {
    exists|types: Vec<(DType, DType)>, plan: RotaryPlan|
        #[trigger] call_ensures(layer_types, (&before,), types) && plans_tables(types@, plan)
            && #[trigger] call_ensures(set_tables, (before, plan), after)
}

/// A plan builds the tables that layers need, each once, and gives each layer its own.
pub open spec fn plans_tables(types: Seq<(DType, DType)>, plan: RotaryPlan) -> bool {
    &&& plan.build@ == needed_tables(types)
    &&& plan.layers@.len() == types.len()
    &&& forall|i: int|
        0 <= i < types.len() ==> table_chosen(plan.build@, types[i], #[trigger] plan.layers@[i])
}

/// What is left of loading a Qwen2 directory once its end tokens are known.
pub open spec fn qwen2_completed<
    M,
    G,
    W: FnOnce() -> Result<Vec<PathBuf>, HuggingFaceLoadError>,
    B: FnOnce(LlamaForCausalLm) -> M,
    L: Fn(M, &PathBuf) -> (M, Result<Supplied, ShardFailure>),
    T: FnOnce(M) -> M,
    Y: FnOnce(&M) -> Vec<(DType, DType)>,
    R: FnOnce(M, RotaryPlan) -> M,
    S: FnOnce() -> Result<(), String>,
>(
    config_path: PathBuf,
    config: LlamaConfig,
    tied: bool,
    eos: Vec<i32>,
    steps: Qwen2Steps<G, W, B, L, T, Y, R, S>,
    result: Result<LoadedHuggingFaceQwen2<M>, HuggingFaceLoadError>,
) -> bool {
    exists|model: Result<(M, usize, Vec<PathBuf>), HuggingFaceLoadError>| #[trigger]
        model_loaded(
            Family::Qwen2,
            config,
            tied,
            steps.find_files,
            steps.build,
            steps.load,
            steps.tie,
            model,
        ) && match model {
            Err(error) => result == Err::<LoadedHuggingFaceQwen2<M>, HuggingFaceLoadError>(error),
            Ok((full, count, files)) => exists|model: M, synced: Result<(), String>|
                #[trigger] retabled(steps.layer_types, steps.set_tables, full, model)
                    && #[trigger] call_ensures(steps.sync, (), synced) && match synced {
                    Err(reason) => result matches Err(error) && error.0@
                        == "Ruda Qwen2 weight upload did not complete: "@ + reason@,
                    Ok(_) => result == Ok::<LoadedHuggingFaceQwen2<M>, HuggingFaceLoadError>(
                        LoadedHuggingFaceQwen2 {
                            model,
                            config,
                            default_eos_token_ids: eos,
                            report: HuggingFaceLoadReport {
                                config_path,
                                weight_files: files,
                                applied_tensors: count,
                                tied_word_embeddings: tied,
                            },
                        },
                    ),
                },
        }
}

/// What loading a Qwen2 directory comes to.
pub open spec fn qwen2_loaded<
    M,
    G: FnOnce() -> Result<Option<Option<HuggingFaceTokenIds>>, HuggingFaceLoadError>,
    W: FnOnce() -> Result<Vec<PathBuf>, HuggingFaceLoadError>,
    B: FnOnce(LlamaForCausalLm) -> M,
    L: Fn(M, &PathBuf) -> (M, Result<Supplied, ShardFailure>),
    T: FnOnce(M) -> M,
    Y: FnOnce(&M) -> Vec<(DType, DType)>,
    R: FnOnce(M, RotaryPlan) -> M,
    S: FnOnce() -> Result<(), String>,
>(
    config_path: PathBuf,
    source: HuggingFaceLlamaConfig,
    steps: Qwen2Steps<G, W, B, L, T, Y, R, S>,
    result: Result<LoadedHuggingFaceQwen2<M>, HuggingFaceLoadError>,
) -> bool {
    exists|settings: Result<(LlamaConfig, bool, Vec<i32>), HuggingFaceLoadError>| #[trigger]
        converted(source, qwen2_fault(source), settings) && match settings {
            Err(error) => result == Err::<LoadedHuggingFaceQwen2<M>, HuggingFaceLoadError>(error),
            Ok((config, tied, config_eos)) => exists|
                generation: Result<Option<Option<HuggingFaceTokenIds>>, HuggingFaceLoadError>,
            | #[trigger]
                call_ensures(steps.read_generation, (), generation) && match generation {
                    Err(error) => result == Err::<LoadedHuggingFaceQwen2<M>, HuggingFaceLoadError>(
                        error,
                    ),
                    Ok(ids) => exists|eos: Result<Vec<i32>, HuggingFaceLoadError>| #[trigger]
                        generation_eos(ids, config.vocab_size, config_eos@, eos) && match eos {
                            Err(error) => result == Err::<
                                LoadedHuggingFaceQwen2<M>,
                                HuggingFaceLoadError,
                            >(error),
                            Ok(eos) => qwen2_completed(
                                config_path,
                                config,
                                tied,
                                eos,
                                steps,
                                result,
                            ),
                        },
                },
        }
}

/// Load an unquantized Hugging Face Qwen2 or Qwen2.5 directory, given what its `config.json` says.
/// The architecture's three Q/K/V bias tensors are required, sliding attention and multimodal RoPE
/// variants are rejected, and every checkpoint tensor is consumed instead of silently dropping
/// unsupported state.
pub fn load_huggingface_qwen2<
    M,
    G: FnOnce() -> Result<Option<Option<HuggingFaceTokenIds>>, HuggingFaceLoadError>,
    W: FnOnce() -> Result<Vec<PathBuf>, HuggingFaceLoadError>,
    B: FnOnce(LlamaForCausalLm) -> M,
    L: Fn(M, &PathBuf) -> (M, Result<Supplied, ShardFailure>),
    T: FnOnce(M) -> M,
    Y: FnOnce(&M) -> Vec<(DType, DType)>,
    R: FnOnce(M, RotaryPlan) -> M,
    S: FnOnce() -> Result<(), String>,
>(
    config_path: PathBuf,
    source: HuggingFaceLlamaConfig,
    steps: Qwen2Steps<G, W, B, L, T, Y, R, S>,
) -> (result: Result<LoadedHuggingFaceQwen2<M>, HuggingFaceLoadError>)
    requires
        call_requires(steps.read_generation, ()),
        call_requires(steps.find_files, ()),
        forall|shape: LlamaForCausalLm| #[trigger] call_requires(steps.build, (shape,)),
        forall|m: M, file: &PathBuf| #[trigger] call_requires(steps.load, (m, file)),
        forall|m: M| #[trigger] call_requires(steps.tie, (m,)),
        forall|m: &M| #[trigger] call_requires(steps.layer_types, (m,)),
        forall|m: M, plan: RotaryPlan| #[trigger] call_requires(steps.set_tables, (m, plan)),
        call_requires(steps.sync, ()),
    ensures
        qwen2_loaded(config_path, source, steps, result),
{
    let ghost given = source;
    let settings = convert_qwen2_config(source);
    let ghost read = settings;
    assert(converted(given, qwen2_fault(given), read));
    let (config, tied, config_eos) = match settings {
        Ok(settings) => settings,
        Err(error) => {
            return Err(error);
        },
    };
    let Qwen2Steps {
        read_generation,
        find_files,
        build,
        load,
        tie,
        layer_types,
        set_tables,
        sync,
    } = steps;
    let generation = read_generation();
    let ghost generation_read = generation;
    assert(call_ensures(steps.read_generation, (), generation_read));
    let ids = match generation {
        Ok(ids) => ids,
        Err(error) => {
            return Err(error);
        },
    };
    let ghost given_ids = ids;
    let ghost given_eos = config_eos@;
    let chosen = load_generation_eos_token_ids(ids, config.vocab_size, config_eos);
    let ghost chosen_eos = chosen;
    assert(generation_eos(given_ids, config.vocab_size, given_eos, chosen_eos));
    let eos = match chosen {
        Ok(eos) => eos,
        Err(error) => {
            return Err(error);
        },
    };
    let ghost final_eos = eos;
    let filled_model = load_model(
        Family::Qwen2,
        &config,
        tied,
        find_files,
        build,
        &load,
        tie,
    );
    let ghost loaded_model = filled_model;
    assert(model_loaded(
        Family::Qwen2,
        config,
        tied,
        steps.find_files,
        steps.build,
        steps.load,
        steps.tie,
        loaded_model,
    ));
    let (full, applied_tensors, weight_files) = match filled_model {
        Ok(parts) => parts,
        Err(error) => {
            assert(qwen2_completed(
                config_path,
                config,
                tied,
                final_eos,
                steps,
                Err::<LoadedHuggingFaceQwen2<M>, HuggingFaceLoadError>(error),
            ));
            return Err(error);
        },
    };
    let ghost before = full;
    let types = layer_types(&full);
    let plan = rotary_plan(types.as_slice());
    let ghost given_plan = plan;
    assert(call_ensures(steps.layer_types, (&before,), types));
    assert(plans_tables(types@, given_plan));
    let model = set_tables(full, plan);
    assert(call_ensures(steps.set_tables, (before, given_plan), model));
    assert(retabled(steps.layer_types, steps.set_tables, before, model));
    let synced = sync();
    let ghost answer = synced;
    assert(call_ensures(steps.sync, (), answer));
    let result = match synced {
        Ok(_) => Ok(
            LoadedHuggingFaceQwen2 {
                model,
                config,
                default_eos_token_ids: eos,
                report: HuggingFaceLoadReport {
                    config_path,
                    weight_files,
                    applied_tensors,
                    tied_word_embeddings: tied,
                },
            },
        ),
        Err(reason) => Err(upload_error("Ruda Qwen2 weight upload did not complete: ", &reason)),
    };
    assert(qwen2_completed(config_path, config, tied, final_eos, steps, result));
    result
}

/// What a caller does to load a quantized Qwen2 directory: read the end tokens of its generation
/// configuration, open its checkpoint, tell how the kernels group its projections, give the decoder
/// the weights of a plan, let the embeddings stand for the head, and wait for the device.
pub struct AwqSteps<G, O, P, B, T, S> {
    pub read_generation: G,
    pub open: O,
    pub groups: P,
    pub build: B,
    pub tie: T,
    pub sync: S,
}

/// What building a quantized model from its plan comes to.
pub open spec fn built_from_plan<
    M,
    B: FnOnce(AwqLlamaForCausalLm, &AwqCheckpoint, &AwqModelPlan) -> Result<
        M,
        HuggingFaceLoadError,
    >,
    T: FnOnce(M) -> M,
    S: FnOnce() -> Result<(), String>,
>(
    checkpoint: AwqCheckpoint,
    config: LlamaConfig,
    tied: bool,
    build: B,
    tie: T,
    sync: S,
    plan: AwqModelPlan,
    result: Result<(M, usize), HuggingFaceLoadError>,
) -> bool {
    exists|shape: AwqLlamaForCausalLm, built: Result<M, HuggingFaceLoadError>|
        shape.model.wf() && shape.model.is_of(config, qwen2_variant()) && #[trigger] call_ensures(
            build,
            (shape, &checkpoint, &plan),
            built,
        ) && match built {
            Err(error) => result == Err::<(M, usize), HuggingFaceLoadError>(error),
            Ok(before) => exists|model: M, synced: Result<(), String>|
                #[trigger] tied_up(tied, tie, before, model) && #[trigger] call_ensures(
                    sync,
                    (),
                    synced,
                ) && match synced {
                    Err(reason) => result matches Err(error) && error.0@
                        == "AWQ weight upload did not complete: "@ + reason@,
                    Ok(_) => result == Ok::<(M, usize), HuggingFaceLoadError>(
                        (model, plan.consumed),
                    ),
                },
        }
}

/// What loading a quantized model comes to: the checkpoint's fault, or what building the model from
/// its plan gave, with the number of tensors that went into it.
pub open spec fn quantized_outcome<
    M,
    B: FnOnce(AwqLlamaForCausalLm, &AwqCheckpoint, &AwqModelPlan) -> Result<
        M,
        HuggingFaceLoadError,
    >,
    T: FnOnce(M) -> M,
    S: FnOnce() -> Result<(), String>,
>(
    checkpoint: AwqCheckpoint,
    config: LlamaConfig,
    tied: bool,
    groups: AwqGroups,
    build: B,
    tie: T,
    sync: S,
    result: Result<(M, usize), HuggingFaceLoadError>,
) -> bool {
    ||| (result matches Err(error) && model_fault(
        checkpoint,
        config,
        true,
        tied,
        groups,
        error.0@,
    ))
    ||| exists|plan: AwqModelPlan| #[trigger]
        model_planned(checkpoint, config, true, tied, groups, plan) && built_from_plan(
            checkpoint,
            config,
            tied,
            build,
            tie,
            sync,
            plan,
            result,
        )
}

/// Check a quantized checkpoint and build the model from the plan that it gives.
fn load_quantized<
    M,
    B: FnOnce(AwqLlamaForCausalLm, &AwqCheckpoint, &AwqModelPlan) -> Result<
        M,
        HuggingFaceLoadError,
    >,
    T: FnOnce(M) -> M,
    S: FnOnce() -> Result<(), String>,
>(
    checkpoint: &AwqCheckpoint,
    config: &LlamaConfig,
    tied: bool,
    groups: &AwqGroups,
    build: B,
    tie: T,
    sync: S,
) -> (result: Result<(M, usize), HuggingFaceLoadError>)
    requires
        config.fault() is None,
        checkpoint.wf(),
        forall|shape: AwqLlamaForCausalLm, from: &AwqCheckpoint, plan: &AwqModelPlan| #[trigger]
            call_requires(build, (shape, from, plan)),
        forall|m: M| #[trigger] call_requires(tie, (m,)),
        call_requires(sync, ()),
    ensures
        quantized_outcome(*checkpoint, *config, tied, *groups, build, tie, sync, result),
{
    let plan = match load_checkpoint(checkpoint, config, true, tied, groups) {
        Ok(plan) => plan,
        Err(error) => {
            return Err(error);
        },
    };
    assert(model_planned(*checkpoint, *config, true, tied, *groups, plan));
    let shape = match AwqLlamaForCausalLm::init(config, true) {
        Ok(shape) => shape,
        Err(error) => {
            assert(false);
            return Err(HuggingFaceLoadError(error.to_string()));
        },
    };
    let ghost described = shape;
    let built = build(shape, checkpoint, &plan);
    let ghost answer = built;
    assert(call_ensures(build, (described, checkpoint, &plan), answer));
    let before = match built {
        Ok(before) => before,
        Err(error) => {
            assert(built_from_plan(
                *checkpoint,
                *config,
                tied,
                build,
                tie,
                sync,
                plan,
                Err::<(M, usize), HuggingFaceLoadError>(error),
            ));
            return Err(error);
        },
    };
    let ghost untied = before;
    let model = if tied {
        tie(before)
    } else {
        before
    };
    assert(tied_up(tied, tie, untied, model));
    let synced = sync();
    let ghost told = synced;
    assert(call_ensures(sync, (), told));
    let result = match synced {
        Ok(_) => Ok((model, plan.consumed)),
        Err(reason) => Err(upload_error("AWQ weight upload did not complete: ", &reason)),
    };
    assert(built_from_plan(*checkpoint, *config, tied, build, tie, sync, plan, result));
    result
}

/// What is left of loading a quantized Qwen2 directory once its end tokens are known.
pub open spec fn awq_completed<
    M,
    G,
    O: FnOnce() -> Result<AwqCheckpoint, HuggingFaceLoadError>,
    P: FnOnce(&LlamaConfig, &AwqCheckpoint) -> AwqGroups,
    B: FnOnce(AwqLlamaForCausalLm, &AwqCheckpoint, &AwqModelPlan) -> Result<
        M,
        HuggingFaceLoadError,
    >,
    T: FnOnce(M) -> M,
    S: FnOnce() -> Result<(), String>,
>(
    config_path: PathBuf,
    config: LlamaConfig,
    tied: bool,
    eos: Vec<i32>,
    steps: AwqSteps<G, O, P, B, T, S>,
    result: Result<LoadedHuggingFaceAwqQwen2<M>, HuggingFaceLoadError>,
) -> bool {
    exists|opened: Result<AwqCheckpoint, HuggingFaceLoadError>| #[trigger]
        call_ensures(steps.open, (), opened) && match opened {
            Err(error) => result == Err::<LoadedHuggingFaceAwqQwen2<M>, HuggingFaceLoadError>(
                error,
            ),
            Ok(checkpoint) => exists|
                groups: AwqGroups,
                model: Result<(M, usize), HuggingFaceLoadError>,
            |
                #[trigger] call_ensures(steps.groups, (&config, &checkpoint), groups)
                    && #[trigger] quantized_outcome(
                    checkpoint,
                    config,
                    tied,
                    groups,
                    steps.build,
                    steps.tie,
                    steps.sync,
                    model,
                ) && match model {
                    Err(error) => result == Err::<
                        LoadedHuggingFaceAwqQwen2<M>,
                        HuggingFaceLoadError,
                    >(error),
                    Ok((model, count)) => result == Ok::<
                        LoadedHuggingFaceAwqQwen2<M>,
                        HuggingFaceLoadError,
                    >(
                        LoadedHuggingFaceAwqQwen2 {
                            model,
                            config,
                            default_eos_token_ids: eos,
                            report: HuggingFaceLoadReport {
                                config_path,
                                weight_files: checkpoint.weight_files,
                                applied_tensors: count,
                                tied_word_embeddings: tied,
                            },
                        },
                    ),
                },
        }
}

/// What loading a quantized Qwen2 directory comes to.
pub open spec fn awq_loaded<
    M,
    G: FnOnce() -> Result<Option<Option<HuggingFaceTokenIds>>, HuggingFaceLoadError>,
    O: FnOnce() -> Result<AwqCheckpoint, HuggingFaceLoadError>,
    P: FnOnce(&LlamaConfig, &AwqCheckpoint) -> AwqGroups,
    B: FnOnce(AwqLlamaForCausalLm, &AwqCheckpoint, &AwqModelPlan) -> Result<
        M,
        HuggingFaceLoadError,
    >,
    T: FnOnce(M) -> M,
    S: FnOnce() -> Result<(), String>,
>(
    config_path: PathBuf,
    source: HuggingFaceLlamaConfig,
    steps: AwqSteps<G, O, P, B, T, S>,
    result: Result<LoadedHuggingFaceAwqQwen2<M>, HuggingFaceLoadError>,
) -> bool {
    exists|settings: Result<(LlamaConfig, bool, Vec<i32>), HuggingFaceLoadError>| #[trigger]
        converted(source, qwen2_fault(source), settings) && match settings {
            Err(error) => result == Err::<LoadedHuggingFaceAwqQwen2<M>, HuggingFaceLoadError>(
                error,
            ),
            Ok((config, tied, config_eos)) => exists|
                generation: Result<Option<Option<HuggingFaceTokenIds>>, HuggingFaceLoadError>,
            | #[trigger]
                call_ensures(steps.read_generation, (), generation) && match generation {
                    Err(error) => result == Err::<
                        LoadedHuggingFaceAwqQwen2<M>,
                        HuggingFaceLoadError,
                    >(error),
                    Ok(ids) => exists|eos: Result<Vec<i32>, HuggingFaceLoadError>| #[trigger]
                        generation_eos(ids, config.vocab_size, config_eos@, eos) && match eos {
                            Err(error) => result == Err::<
                                LoadedHuggingFaceAwqQwen2<M>,
                                HuggingFaceLoadError,
                            >(error),
                            Ok(eos) => awq_completed(config_path, config, tied, eos, steps, result),
                        },
                },
        }
}

/// Load a quantized Hugging Face Qwen2 or Qwen2.5 directory, given what its `config.json` says.
/// Every tensor of the checkpoint is used, and at least one projection is packed.
pub fn load_huggingface_awq_qwen2<
    M,
    G: FnOnce() -> Result<Option<Option<HuggingFaceTokenIds>>, HuggingFaceLoadError>,
    O: FnOnce() -> Result<AwqCheckpoint, HuggingFaceLoadError>,
    P: FnOnce(&LlamaConfig, &AwqCheckpoint) -> AwqGroups,
    B: FnOnce(AwqLlamaForCausalLm, &AwqCheckpoint, &AwqModelPlan) -> Result<
        M,
        HuggingFaceLoadError,
    >,
    T: FnOnce(M) -> M,
    S: FnOnce() -> Result<(), String>,
>(
    config_path: PathBuf,
    source: HuggingFaceLlamaConfig,
    steps: AwqSteps<G, O, P, B, T, S>,
) -> (result: Result<LoadedHuggingFaceAwqQwen2<M>, HuggingFaceLoadError>)
    requires
        call_requires(steps.read_generation, ()),
        call_requires(steps.open, ()),
        forall|checkpoint: AwqCheckpoint| #[trigger]
            call_ensures(
                steps.open,
                (),
                Ok::<AwqCheckpoint, HuggingFaceLoadError>(checkpoint),
            ) ==> checkpoint.wf(),
        forall|config: &LlamaConfig, checkpoint: &AwqCheckpoint| #[trigger]
            call_requires(steps.groups, (config, checkpoint)),
        forall|shape: AwqLlamaForCausalLm, from: &AwqCheckpoint, plan: &AwqModelPlan| #[trigger]
            call_requires(steps.build, (shape, from, plan)),
        forall|m: M| #[trigger] call_requires(steps.tie, (m,)),
        call_requires(steps.sync, ()),
    ensures
        awq_loaded(config_path, source, steps, result),
{
    let ghost given = source;
    let settings = convert_qwen2_config(source);
    let ghost read = settings;
    assert(converted(given, qwen2_fault(given), read));
    let (config, tied, config_eos) = match settings {
        Ok(settings) => settings,
        Err(error) => {
            return Err(error);
        },
    };
    let AwqSteps { read_generation, open, groups, build, tie, sync } = steps;
    let generation = read_generation();
    let ghost generation_read = generation;
    assert(call_ensures(steps.read_generation, (), generation_read));
    let ids = match generation {
        Ok(ids) => ids,
        Err(error) => {
            return Err(error);
        },
    };
    let ghost given_ids = ids;
    let ghost given_eos = config_eos@;
    let chosen = load_generation_eos_token_ids(ids, config.vocab_size, config_eos);
    let ghost chosen_eos = chosen;
    assert(generation_eos(given_ids, config.vocab_size, given_eos, chosen_eos));
    let eos = match chosen {
        Ok(eos) => eos,
        Err(error) => {
            return Err(error);
        },
    };
    let ghost final_eos = eos;
    let opened = open();
    let ghost answer = opened;
    assert(call_ensures(steps.open, (), answer));
    let checkpoint = match opened {
        Ok(checkpoint) => checkpoint,
        Err(error) => {
            assert(awq_completed(
                config_path,
                config,
                tied,
                final_eos,
                steps,
                Err::<LoadedHuggingFaceAwqQwen2<M>, HuggingFaceLoadError>(error),
            ));
            return Err(error);
        },
    };
    let sizes = groups(&config, &checkpoint);
    assert(call_ensures(steps.groups, (&config, &checkpoint), sizes));
    let quantized = load_quantized(&checkpoint, &config, tied, &sizes, build, tie, sync);
    let ghost outcome = quantized;
    assert(quantized_outcome(
        checkpoint,
        config,
        tied,
        sizes,
        steps.build,
        steps.tie,
        steps.sync,
        outcome,
    ));
    let result = match quantized {
        Ok((model, applied_tensors)) => Ok(
            LoadedHuggingFaceAwqQwen2 {
                model,
                config,
                default_eos_token_ids: eos,
                report: HuggingFaceLoadReport {
                    config_path,
                    weight_files: checkpoint.weight_files,
                    applied_tensors,
                    tied_word_embeddings: tied,
                },
            },
        ),
        Err(error) => Err(error),
    };
    assert(awq_completed(config_path, config, tied, final_eos, steps, result));
    result
}

} // verus!
