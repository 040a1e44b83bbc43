//! What loading a directory asks of its files: the parameters of the model, each once, and nothing
//! besides.

use crate::huggingface::directory::{
    accounted_for, fills, filled, llama_loaded, model_loaded, qwen2_completed, tally, tied_up,
    variant_of, LlamaSteps, Qwen2Steps, ShardFailure, ShardTrace, Supplied,
};
use crate::huggingface::loading::{
    bias_suffixes, in_layers, layer_suffixes, layer_tensor, repeated, settled, Family, RotaryPlan,
    ShardLedger,
};
use crate::huggingface::config::{converted, llama_fault, HuggingFaceLlamaConfig};
use crate::huggingface::pipeline::{LoadedHuggingFaceLlama, LoadedHuggingFaceQwen2};
use crate::huggingface::tensors::DType;
use crate::huggingface::HuggingFaceLoadError;
use crate::llama::attention::RotaryLayout;
use crate::llama::heads::Linear;
use crate::llama::model::LlamaForCausalLm;
use crate::llama::standard::LlamaDecoderLayer;
use crate::llama::LlamaConfig;
use crate::names::texts;
use crate::text::decimal;
use std::path::PathBuf;
use vstd::prelude::*;

verus! {

/// `name` is a parameter of a linear map at `path`: its weight, or its bias where it has one.
pub open spec fn linear_parameter(path: Seq<char>, linear: Linear, name: Seq<char>) -> bool {
    name == path + ".weight"@ || (linear.bias is Some && name == path + ".bias"@)
}

/// `name` is a parameter of a decoder layer, under its path in the layer.
pub open spec fn layer_parameter(layer: LlamaDecoderLayer, name: Seq<char>) -> bool {
    ||| linear_parameter("self_attn.q_proj"@, layer.self_attn.q_proj, name)
    ||| linear_parameter("self_attn.k_proj"@, layer.self_attn.k_proj, name)
    ||| linear_parameter("self_attn.v_proj"@, layer.self_attn.v_proj, name)
    ||| linear_parameter("self_attn.o_proj"@, layer.self_attn.o_proj, name)
    ||| linear_parameter("mlp.gate_proj"@, layer.mlp.gate_proj, name)
    ||| linear_parameter("mlp.up_proj"@, layer.mlp.up_proj, name)
    ||| linear_parameter("mlp.down_proj"@, layer.mlp.down_proj, name)
    ||| name == "input_layernorm.gamma"@
    ||| name == "post_attention_layernorm.gamma"@
}

/// `name` is a parameter of a model, under its path in the model. A head that stands for the
/// embedding is none.
pub open spec fn model_parameter(model: LlamaForCausalLm, tied: bool, name: Seq<char>) -> bool {
    ||| name == "embed_tokens.weight"@
    ||| name == "norm.gamma"@
    ||| !tied && linear_parameter("lm_head"@, model.lm_head, name)
    ||| exists|i: int, part: Seq<char>|
        0 <= i < model.layers@.len() && #[trigger] layer_parameter(model.layers@[i], part) && name
            == "layers."@ + decimal(i as nat) + "."@ + part
}

/// A Llama model has no bias; a Qwen2 model has biases on queries, keys and values, as long as their
/// outputs, and no others. Llama rotates neighbouring elements of a head, Qwen2 its halves.
pub proof fn law_families_differ_in_biases_and_rotation(
    family: Family,
    config: LlamaConfig,
    model: LlamaForCausalLm,
    i: int,
)
    requires
        model.is_of(config, variant_of(family)),
        0 <= i < model.layers@.len(),
    ensures
        ({
            let layer = model.layers@[i];
            let attention = layer.self_attn;
            &&& model.layers@.len() == config.num_hidden_layers
            &&& model.lm_head.bias is None
            &&& attention.o_proj.bias is None
            &&& layer.mlp.gate_proj.bias is None
            &&& layer.mlp.up_proj.bias is None
            &&& layer.mlp.down_proj.bias is None
            &&& family is Llama ==> attention.q_proj.bias is None && attention.k_proj.bias is None
                && attention.v_proj.bias is None && attention.rotary_layout
                == RotaryLayout::Interleaved
            &&& family is Qwen2 ==> attention.q_proj.bias == Some(attention.q_proj.outputs)
                && attention.k_proj.bias == Some(attention.k_proj.outputs) && attention.v_proj.bias
                == Some(attention.v_proj.outputs) && attention.rotary_layout
                == RotaryLayout::HalfSplit
        }),
{
}

proof fn lemma_paths()
    ensures
        "self_attn.q_proj"@ + ".weight"@ == "self_attn.q_proj.weight"@,
        "self_attn.k_proj"@ + ".weight"@ == "self_attn.k_proj.weight"@,
        "self_attn.v_proj"@ + ".weight"@ == "self_attn.v_proj.weight"@,
        "self_attn.o_proj"@ + ".weight"@ == "self_attn.o_proj.weight"@,
        "mlp.gate_proj"@ + ".weight"@ == "mlp.gate_proj.weight"@,
        "mlp.up_proj"@ + ".weight"@ == "mlp.up_proj.weight"@,
        "mlp.down_proj"@ + ".weight"@ == "mlp.down_proj.weight"@,
        "lm_head"@ + ".weight"@ == "lm_head.weight"@,
        "self_attn.q_proj"@ + ".bias"@ == "self_attn.q_proj.bias"@,
        "self_attn.k_proj"@ + ".bias"@ == "self_attn.k_proj.bias"@,
        "self_attn.v_proj"@ + ".bias"@ == "self_attn.v_proj.bias"@,
{
    reveal_strlit(".weight");
    reveal_strlit(".bias");
    reveal_strlit("lm_head");
    reveal_strlit("lm_head.weight");
    reveal_strlit("self_attn.q_proj");
    reveal_strlit("self_attn.k_proj");
    reveal_strlit("self_attn.v_proj");
    reveal_strlit("self_attn.o_proj");
    reveal_strlit("mlp.gate_proj");
    reveal_strlit("mlp.up_proj");
    reveal_strlit("mlp.down_proj");
    reveal_strlit("self_attn.q_proj.weight");
    reveal_strlit("self_attn.k_proj.weight");
    reveal_strlit("self_attn.v_proj.weight");
    reveal_strlit("self_attn.o_proj.weight");
    reveal_strlit("mlp.gate_proj.weight");
    reveal_strlit("mlp.up_proj.weight");
    reveal_strlit("mlp.down_proj.weight");
    reveal_strlit("self_attn.q_proj.bias");
    reveal_strlit("self_attn.k_proj.bias");
    reveal_strlit("self_attn.v_proj.bias");
    assert("self_attn.q_proj"@ + ".weight"@ =~= "self_attn.q_proj.weight"@);
    assert("self_attn.k_proj"@ + ".weight"@ =~= "self_attn.k_proj.weight"@);
    assert("self_attn.v_proj"@ + ".weight"@ =~= "self_attn.v_proj.weight"@);
    assert("self_attn.o_proj"@ + ".weight"@ =~= "self_attn.o_proj.weight"@);
    assert("mlp.gate_proj"@ + ".weight"@ =~= "mlp.gate_proj.weight"@);
    assert("mlp.up_proj"@ + ".weight"@ =~= "mlp.up_proj.weight"@);
    assert("mlp.down_proj"@ + ".weight"@ =~= "mlp.down_proj.weight"@);
    assert("lm_head"@ + ".weight"@ =~= "lm_head.weight"@);
    assert("self_attn.q_proj"@ + ".bias"@ =~= "self_attn.q_proj.bias"@);
    assert("self_attn.k_proj"@ + ".bias"@ =~= "self_attn.k_proj.bias"@);
    assert("self_attn.v_proj"@ + ".bias"@ =~= "self_attn.v_proj.bias"@);
}

/// The tensors that a family expects of a layer are the parameters of the layer.
proof fn lemma_layer_parameters(
    family: Family,
    config: LlamaConfig,
    model: LlamaForCausalLm,
    i: int,
    part: Seq<char>,
)
    requires
        model.is_of(config, variant_of(family)),
        0 <= i < model.layers@.len(),
    ensures
        layer_parameter(model.layers@[i], part) <==> layer_suffixes().contains(part) || (family
            is Qwen2 && bias_suffixes().contains(part)),
{
    lemma_paths();
    law_families_differ_in_biases_and_rotation(family, config, model, i);
    let s = layer_suffixes();
    let b = bias_suffixes();
    if layer_parameter(model.layers@[i], part) {
        assert(s[0] == "self_attn.q_proj.weight"@);
        assert(s[1] == "self_attn.k_proj.weight"@);
        assert(s[2] == "self_attn.v_proj.weight"@);
        assert(s[3] == "self_attn.o_proj.weight"@);
        assert(s[4] == "mlp.gate_proj.weight"@);
        assert(s[5] == "mlp.up_proj.weight"@);
        assert(s[6] == "mlp.down_proj.weight"@);
        assert(s[7] == "input_layernorm.gamma"@);
        assert(s[8] == "post_attention_layernorm.gamma"@);
        assert(b[0] == "self_attn.q_proj.bias"@);
        assert(b[1] == "self_attn.k_proj.bias"@);
        assert(b[2] == "self_attn.v_proj.bias"@);
    }
    if s.contains(part) {
        let k = choose|k: int| 0 <= k < s.len() && s[k] == part;
        assert(k == 0 || k == 1 || k == 2 || k == 3 || k == 4 || k == 5 || k == 6 || k == 7 || k
            == 8);
    }
    if b.contains(part) {
        let k = choose|k: int| 0 <= k < b.len() && b[k] == part;
        assert(k == 0 || k == 1 || k == 2);
    }
}

proof fn lemma_in_layers(layers: nat, suffixes: Seq<Seq<char>>, name: Seq<char>)
    ensures
        in_layers(layers, suffixes, name) <==> exists|layer: nat, part: Seq<char>|
            layer < layers && suffixes.contains(part) && name == #[trigger] layer_tensor(
                layer,
                part,
            ),
{
    if in_layers(layers, suffixes, name) {
        let (layer, i) = choose|layer: nat, i: int|
            layer < layers && 0 <= i < suffixes.len() && name == #[trigger] layer_tensor(
                layer,
                suffixes[i],
            );
        assert(suffixes.contains(suffixes[i]));
        assert(name == layer_tensor(layer, suffixes[i]));
    }
    if exists|layer: nat, part: Seq<char>|
        layer < layers && suffixes.contains(part) && name == #[trigger] layer_tensor(layer, part) {
        let (layer, part) = choose|layer: nat, part: Seq<char>|
            layer < layers && suffixes.contains(part) && name == #[trigger] layer_tensor(
                layer,
                part,
            );
        let i = choose|i: int| 0 <= i < suffixes.len() && suffixes[i] == part;
        assert(name == layer_tensor(layer, suffixes[i]));
    }
}

/// The tensors that are expected of a family are the parameters of the model that is built for it,
/// no more and no fewer.
pub proof fn law_expected_tensors_are_the_parameters(
    family: Family,
    config: LlamaConfig,
    tied: bool,
    model: LlamaForCausalLm,
    name: Seq<char>,
)
    requires
        model.is_of(config, variant_of(family)),
    ensures
        family.has_tensor(config.num_hidden_layers as nat, tied, name) <==> model_parameter(
            model,
            tied,
            name,
        ),
{
    let layers = config.num_hidden_layers as nat;
    lemma_paths();
    lemma_in_layers(layers, layer_suffixes(), name);
    lemma_in_layers(layers, bias_suffixes(), name);
    assert(model.lm_head.bias is None);
    if model_parameter(model, tied, name) {
        if exists|i: int, part: Seq<char>|
            0 <= i < model.layers@.len() && #[trigger] layer_parameter(model.layers@[i], part)
                && name == "layers."@ + decimal(i as nat) + "."@ + part {
            let (i, part) = choose|i: int, part: Seq<char>|
                0 <= i < model.layers@.len() && #[trigger] layer_parameter(model.layers@[i], part)
                    && name == "layers."@ + decimal(i as nat) + "."@ + part;
            lemma_layer_parameters(family, config, model, i, part);
            assert(name == layer_tensor(i as nat, part));
        }
    }
    assert forall|layer: nat, part: Seq<char>|
        layer < layers && name == #[trigger] layer_tensor(layer, part) && (
        layer_suffixes().contains(part) || (family is Qwen2 && bias_suffixes().contains(
            part,
        ))) implies layer_parameter(model.layers@[layer as int], part) by {
        lemma_layer_parameters(family, config, model, layer as int, part);
    }
}

/// No tensor that is expected of a Llama model is a bias.
pub proof fn law_llama_expects_no_bias(layers: nat, tied: bool, name: Seq<char>)
    requires
        Family::Llama.has_tensor(layers, tied, name),
    ensures
        !".bias"@.is_suffix_of(name),
{
    reveal_strlit(".bias");
    reveal_strlit("embed_tokens.weight");
    reveal_strlit("norm.gamma");
    reveal_strlit("lm_head.weight");
    reveal_strlit("self_attn.q_proj.weight");
    reveal_strlit("self_attn.k_proj.weight");
    reveal_strlit("self_attn.v_proj.weight");
    reveal_strlit("self_attn.o_proj.weight");
    reveal_strlit("mlp.gate_proj.weight");
    reveal_strlit("mlp.up_proj.weight");
    reveal_strlit("mlp.down_proj.weight");
    reveal_strlit("input_layernorm.gamma");
    reveal_strlit("post_attention_layernorm.gamma");
    if in_layers(layers, layer_suffixes(), name) {
        let s = layer_suffixes();
        let (layer, i) = choose|layer: nat, i: int|
            layer < layers && 0 <= i < s.len() && name == #[trigger] layer_tensor(layer, s[i]);
        assert(i == 0 || i == 1 || i == 2 || i == 3 || i == 4 || i == 5 || i == 6 || i == 7 || i
            == 8);
        assert(name.last() == s[i].last());
    }
    assert(name.last() != 's');
    if ".bias"@.is_suffix_of(name) {
        assert(name.skip(name.len() - 5).last() == name.last());
    }
}

/// Some file supplied a tensor of this name that went into the model.
pub open spec fn supplies(supplied: Seq<Supplied>, name: Seq<char>) -> bool {
    exists|f: int, j: int|
        0 <= f < supplied.len() && 0 <= j < supplied[f].applied@.len()
            && #[trigger] supplied[f].applied@[j]@ == name
}

/// Some file held a tensor of this name that the model had no place for.
pub open spec fn leaves_over(supplied: Seq<Supplied>, name: Seq<char>) -> bool {
    exists|f: int, j: int|
        0 <= f < supplied.len() && 0 <= j < supplied[f].unused@.len()
            && #[trigger] supplied[f].unused@[j]@ == name
}

/// No tensor was supplied twice, by one file or by two.
pub open spec fn supplies_once(supplied: Seq<Supplied>) -> bool {
    forall|f: int, j: int, g: int, k: int|
        0 <= f < supplied.len() && 0 <= j < supplied[f].applied@.len() && 0 <= g < supplied.len()
            && 0 <= k < supplied[g].applied@.len() && (f != g || j != k)
            ==> #[trigger] supplied[f].applied@[j]@ != #[trigger] supplied[g].applied@[k]@
}

/// The number of tensors that files supplied.
pub open spec fn supplied_count(supplied: Seq<Supplied>) -> nat
    decreases supplied.len(),
{
    if supplied.len() == 0 {
        0
    } else {
        supplied_count(supplied.drop_last()) + supplied.last().applied@.len()
    }
}

proof fn lemma_not_repeated(seen: Set<Seq<char>>, names: Seq<Seq<char>>)
    requires
        repeated(seen, names) is None,
    ensures
        names.no_duplicates(),
        forall|i: int| 0 <= i < names.len() ==> !seen.contains(#[trigger] names[i]),
    decreases names.len(),
{
    if names.len() > 0 {
        let earlier = names.drop_last();
        lemma_not_repeated(seen, earlier);
        assert forall|i: int| 0 <= i < names.len() implies !seen.contains(#[trigger] names[i]) by {
            if i < earlier.len() {
                assert(earlier[i] == names[i]);
            }
        }
        assert forall|i: int, j: int|
            0 <= i < names.len() && 0 <= j < names.len() && i != j implies names[i] != names[j] by {
            let n = names.len() - 1;
            if i < n && j < n {
                assert(earlier[i] == names[i] && earlier[j] == names[j]);
            } else if i < n {
                assert(earlier[i] == names[i]);
                assert(earlier.to_set().contains(earlier[i]));
            } else if j < n {
                assert(earlier[j] == names[j]);
                assert(earlier.to_set().contains(earlier[j]));
            }
        }
    }
}

proof fn lemma_tally(supplied: Seq<Supplied>)
    requires
        tally(supplied) is Some,
    ensures
        ({
            let (applied, unused) = tally(supplied)->0;
            &&& forall|name: Seq<char>| #[trigger] applied.contains(name) <==> supplies(supplied, name)
            &&& forall|name: Seq<char>| #[trigger]
                unused.contains(name) <==> leaves_over(supplied, name)
            &&& supplies_once(supplied)
            &&& applied.finite()
            &&& applied.len() == supplied_count(supplied)
        }),
    decreases supplied.len(),
{
    if supplied.len() > 0 {
        let fewer = supplied.drop_last();
        let last = supplied.last();
        let n = supplied.len() - 1;
        lemma_tally(fewer);
        let (before, rest) = tally(fewer)->0;
        let (applied, unused) = tally(supplied)->0;
        let names = texts(last.applied@);
        lemma_not_repeated(before, names);
        assert(supplied[n] == last);
        assert forall|name: Seq<char>| #[trigger]
            applied.contains(name) <==> supplies(supplied, name) by {
            if before.contains(name) {
                assert(supplies(fewer, name));
                let (f, j) = choose|f: int, j: int|
                    0 <= f < fewer.len() && 0 <= j < fewer[f].applied@.len()
                        && #[trigger] fewer[f].applied@[j]@ == name;
                assert(supplied[f].applied@[j]@ == name);
            }
            if names.to_set().contains(name) {
                let j = choose|j: int| 0 <= j < names.len() && names[j] == name;
                assert(supplied[n].applied@[j]@ == name);
            }
            if supplies(supplied, name) {
                let (f, j) = choose|f: int, j: int|
                    0 <= f < supplied.len() && 0 <= j < supplied[f].applied@.len()
                        && #[trigger] supplied[f].applied@[j]@ == name;
                if f < n {
                    assert(fewer[f].applied@[j]@ == name);
                    assert(supplies(fewer, name));
                    assert(before.contains(name));
                } else {
                    assert(names[j] == name);
                    assert(names.to_set().contains(name));
                }
            }
        }
        let kept = texts(last.unused@);
        assert forall|name: Seq<char>| #[trigger]
            unused.contains(name) <==> leaves_over(supplied, name) by {
            if rest.contains(name) {
                assert(leaves_over(fewer, name));
                let (f, j) = choose|f: int, j: int|
                    0 <= f < fewer.len() && 0 <= j < fewer[f].unused@.len()
                        && #[trigger] fewer[f].unused@[j]@ == name;
                assert(supplied[f].unused@[j]@ == name);
            }
            if kept.to_set().contains(name) {
                let j = choose|j: int| 0 <= j < kept.len() && kept[j] == name;
                assert(supplied[n].unused@[j]@ == name);
            }
            if leaves_over(supplied, name) {
                let (f, j) = choose|f: int, j: int|
                    0 <= f < supplied.len() && 0 <= j < supplied[f].unused@.len()
                        && #[trigger] supplied[f].unused@[j]@ == name;
                if f < n {
                    assert(fewer[f].unused@[j]@ == name);
                    assert(leaves_over(fewer, name));
                    assert(rest.contains(name));
                } else {
                    assert(kept[j] == name);
                    assert(kept.to_set().contains(name));
                }
            }
        }
        assert forall|f: int, j: int, g: int, k: int|
            0 <= f < supplied.len() && 0 <= j < supplied[f].applied@.len() && 0 <= g
                < supplied.len() && 0 <= k < supplied[g].applied@.len() && (f != g || j
                != k) implies #[trigger] supplied[f].applied@[j]@
            != #[trigger] supplied[g].applied@[k]@ by {
            if f < n && g < n {
                assert(fewer[f].applied@[j]@ == supplied[f].applied@[j]@);
                assert(fewer[g].applied@[k]@ == supplied[g].applied@[k]@);
            } else if f < n {
                assert(fewer[f].applied@[j]@ == supplied[f].applied@[j]@);
                assert(supplies(fewer, supplied[f].applied@[j]@));
                assert(before.contains(supplied[f].applied@[j]@));
                assert(!before.contains(names[k]));
            } else if g < n {
                assert(fewer[g].applied@[k]@ == supplied[g].applied@[k]@);
                assert(supplies(fewer, supplied[g].applied@[k]@));
                assert(before.contains(supplied[g].applied@[k]@));
                assert(!before.contains(names[j]));
            } else {
                assert(names[j] != names[k]);
            }
        }
        names.unique_seq_to_set();
        vstd::seq_lib::seq_to_set_is_finite(names);
        assert(before.disjoint(names.to_set())) by {
            assert forall|name: Seq<char>| before.contains(name) implies !names.to_set().contains(
                name,
            ) by {
                if names.to_set().contains(name) {
                    let j = choose|j: int| 0 <= j < names.len() && names[j] == name;
                    assert(!before.contains(names[j]));
                }
            }
        }
        vstd::set_lib::lemma_set_disjoint_lens(before, names.to_set());
        assert(applied == before + names.to_set());
    }
}

/// What strict loading of files into a model of `family` amounts to: the files are found, the model
/// is built empty, all files are loaded into it in turn; every parameter of the model is supplied,
/// none twice, and nothing is left over but a head that the embedding stands for.
pub open spec fn strict<
    M,
    W: FnOnce() -> Result<Vec<PathBuf>, HuggingFaceLoadError>,
    B: FnOnce(LlamaForCausalLm) -> M,
    L: Fn(M, &PathBuf) -> (M, Result<Supplied, ShardFailure>),
>(
    family: Family,
    config: LlamaConfig,
    tied: bool,
    find_files: W,
    build: B,
    load: L,
    files: Vec<PathBuf>,
    shape: LlamaForCausalLm,
    empty: M,
    trace: ShardTrace<M>,
    count: usize,
) -> bool {
    &&& call_ensures(find_files, (), Ok(files))
    &&& shape.is_of(config, variant_of(family))
    &&& call_ensures(build, (shape,), empty)
    &&& fills(load, empty, files@, trace)
    &&& trace.supplied.len() == files@.len()
    &&& forall|name: Seq<char>| #[trigger]
        model_parameter(shape, tied, name) ==> supplies(trace.supplied, name)
    &&& supplies_once(trace.supplied)
    &&& forall|name: Seq<char>| #[trigger]
        leaves_over(trace.supplied, name) ==> tied && name == "lm_head.weight"@
    &&& count == supplied_count(trace.supplied)
}

/// A model that was loaded was loaded strictly, and is what the last file left of it, with its head
/// tied where the embedding stands for it.
pub proof fn law_models_are_loaded_strictly<
    M,
    W: FnOnce() -> Result<Vec<PathBuf>, HuggingFaceLoadError>,
    B: FnOnce(LlamaForCausalLm) -> M,
    L: Fn(M, &PathBuf) -> (M, Result<Supplied, ShardFailure>),
    T: FnOnce(M) -> M,
>(
    family: Family,
    config: LlamaConfig,
    tied: bool,
    find_files: W,
    build: B,
    load: L,
    tie: T,
    model: M,
    count: usize,
    files: Vec<PathBuf>,
)
    requires
        model_loaded(
            family,
            config,
            tied,
            find_files,
            build,
            load,
            tie,
            Ok((model, count, files)),
        ),
    ensures
        exists|shape: LlamaForCausalLm, empty: M, trace: ShardTrace<M>|
            #[trigger] strict(
                family,
                config,
                tied,
                find_files,
                build,
                load,
                files,
                shape,
                empty,
                trace,
                count,
            ) && if tied {
                call_ensures(tie, (trace.models.last(),), model)
            } else {
                model == trace.models.last()
            },
{
    let (shape, empty, weights) = choose|
        shape: LlamaForCausalLm,
        empty: M,
        weights: Result<(M, usize), HuggingFaceLoadError>,
    |
        shape.wf() && shape.is_of(config, variant_of(family)) && #[trigger] call_ensures(
            build,
            (shape,),
            empty,
        ) && #[trigger] accounted_for(family, config, tied, load, tie, empty, files@, weights)
            && match weights {
            Ok((loaded, number)) => loaded == model && number == count,
            Err(error) => false,
        };
    let shards = choose|shards: Result<(M, ShardLedger), HuggingFaceLoadError>| #[trigger]
        filled(family, load, empty, files@, shards) && match shards {
            Err(error) => false,
            Ok((full, ledger)) => tied_up(tied, tie, full, model) && settled(
                family,
                config,
                tied,
                ledger,
                Ok(count),
            ),
        };
    let (full, ledger) = shards->Ok_0;
    let trace = choose|trace: ShardTrace<M>| #[trigger]
        fills(load, empty, files@, trace) && trace.supplied.len() == files@.len() && full
            == trace.models.last() && tally(trace.supplied) == Some(
            (ledger.applied@.dom(), ledger.unused@.dom()),
        );
    lemma_tally(trace.supplied);
    let applied = ledger.applied@.dom();
    let unused = ledger.unused@.dom();
    let (first, second) = tally(trace.supplied)->0;
    assert(first == applied && second == unused);
    assert forall|name: Seq<char>| #[trigger] model_parameter(shape, tied, name) implies supplies(
        trace.supplied,
        name,
    ) by {
        law_expected_tensors_are_the_parameters(family, config, tied, shape, name);
        let expected = Set::new(
            |name: Seq<char>| family.has_tensor(config.num_hidden_layers as nat, tied, name),
        );
        assert(expected.contains(name));
        assert(first.contains(name));
    }
    assert forall|name: Seq<char>| #[trigger] leaves_over(trace.supplied, name) implies tied && name
        == "lm_head.weight"@ by {
        assert(second.contains(name));
        if !(tied && name == "lm_head.weight"@) {
            assert(crate::huggingface::loading::unexpected_names(unused, tied).contains(name));
        }
    }
    assert(strict(
        family,
        config,
        tied,
        find_files,
        build,
        load,
        files,
        shape,
        empty,
        trace,
        count,
    ));
}

/// Files that supply what a model of the family expects, and nothing that it has no place for, are
/// never refused.
pub proof fn law_complete_files_are_accepted(
    family: Family,
    config: LlamaConfig,
    tied: bool,
    model: LlamaForCausalLm,
    ledger: ShardLedger,
    result: Result<usize, Seq<char>>,
)
    requires
        model.is_of(config, variant_of(family)),
        settled(family, config, tied, ledger, result),
        forall|name: Seq<char>| #[trigger]
            model_parameter(model, tied, name) ==> ledger.applied@.dom().contains(name),
        forall|name: Seq<char>| #[trigger]
            ledger.unused@.dom().contains(name) ==> tied && name == "lm_head.weight"@,
    ensures
        result == Ok::<usize, Seq<char>>(ledger.applied@.dom().len() as usize),
{
    let expected = Set::new(
        |name: Seq<char>| family.has_tensor(config.num_hidden_layers as nat, tied, name),
    );
    assert(expected.difference(ledger.applied@.dom()) =~= Set::<Seq<char>>::empty()) by {
        assert forall|name: Seq<char>| !expected.difference(ledger.applied@.dom()).contains(
            name,
        ) by {
            law_expected_tensors_are_the_parameters(family, config, tied, model, name);
        }
    }
    assert(crate::huggingface::loading::unexpected_names(ledger.unused@.dom(), tied)
        =~= Set::<Seq<char>>::empty());
}

/// A Llama directory that was loaded was loaded strictly, with the configuration that its file
/// converts to.
pub proof fn law_llama_directories_are_loaded_strictly<
    M,
    W: FnOnce() -> Result<Vec<PathBuf>, HuggingFaceLoadError>,
    B: FnOnce(LlamaForCausalLm) -> M,
    L: Fn(M, &PathBuf) -> (M, Result<Supplied, ShardFailure>),
    T: FnOnce(M) -> M,
    S: FnOnce() -> Result<(), String>,
>(
    config_path: PathBuf,
    source: HuggingFaceLlamaConfig,
    steps: LlamaSteps<W, B, L, T, S>,
    loaded: LoadedHuggingFaceLlama<M>,
)
    requires
        llama_loaded(config_path, source, steps, Ok(loaded)),
    ensures
        exists|eos: Vec<i32>| #[trigger]
            converted(
                source,
                llama_fault(source),
                Ok((loaded.config, loaded.report.tied_word_embeddings, eos)),
            ) && eos == loaded.default_eos_token_ids,
        exists|shape: LlamaForCausalLm, empty: M, trace: ShardTrace<M>|
            #[trigger] strict(
                Family::Llama,
                loaded.config,
                loaded.report.tied_word_embeddings,
                steps.find_files,
                steps.build,
                steps.load,
                loaded.report.weight_files,
                shape,
                empty,
                trace,
                loaded.report.applied_tensors,
            ) && if loaded.report.tied_word_embeddings {
                call_ensures(steps.tie, (trace.models.last(),), loaded.model)
            } else {
                loaded.model == trace.models.last()
            },
        exists|answer: Result<(), String>| #[trigger]
            call_ensures(steps.sync, (), answer) && answer is Ok,
{
    let settings = choose|settings: Result<(LlamaConfig, bool, Vec<i32>), HuggingFaceLoadError>|
        #[trigger]
        converted(source, llama_fault(source), settings) && match settings {
            Err(error) => false,
            Ok((config, tied, eos)) => exists|
                model: Result<(M, usize, Vec<PathBuf>), HuggingFaceLoadError>,
            | #[trigger]
                model_loaded(
                    Family::Llama,
                    config,
                    tied,
                    steps.find_files,
                    steps.build,
                    steps.load,
                    steps.tie,
                    model,
                ) && match model {
                    Err(error) => false,
                    Ok((model, count, files)) => loaded.model == model && loaded.config == config
                        && loaded.default_eos_token_ids == eos && loaded.report.weight_files
                        == files && loaded.report.applied_tensors == count
                        && loaded.report.tied_word_embeddings == tied && exists|
                        answer: Result<(), String>,
                    | #[trigger] call_ensures(steps.sync, (), answer) && answer is Ok,
                },
        };
    let (config, tied, eos) = settings->Ok_0;
    assert(converted(source, llama_fault(source), Ok((config, tied, eos))));
    law_models_are_loaded_strictly(
        Family::Llama,
        config,
        tied,
        steps.find_files,
        steps.build,
        steps.load,
        steps.tie,
        loaded.model,
        loaded.report.applied_tensors,
        loaded.report.weight_files,
    );
}

/// A Qwen2 directory that was loaded was loaded strictly; its model is then given rotary tables.
pub proof fn law_qwen2_directories_are_loaded_strictly<
    M,
    G,
    W: FnOnce() -> Result<Vec<PathBuf>, HuggingFaceLoadError>,
    B: FnOnce(LlamaForCausalLm) -> M,
    L: Fn(M, &PathBuf) -> (M, Result<Supplied, ShardFailure>),
    T: FnOnce(M) -> M,
    Y: FnOnce(&M) -> Vec<(DType, DType)>,
    R: FnOnce(M, RotaryPlan) -> M,
    S: FnOnce() -> Result<(), String>,
>(
    config_path: PathBuf,
    config: LlamaConfig,
    tied: bool,
    eos: Vec<i32>,
    steps: Qwen2Steps<G, W, B, L, T, Y, R, S>,
    loaded: LoadedHuggingFaceQwen2<M>,
)
    requires
        qwen2_completed(config_path, config, tied, eos, steps, Ok(loaded)),
    ensures
        loaded.config == config,
        loaded.default_eos_token_ids == eos,
        loaded.report.tied_word_embeddings == tied,
        exists|shape: LlamaForCausalLm, empty: M, trace: ShardTrace<M>|
            #[trigger] strict(
                Family::Qwen2,
                config,
                tied,
                steps.find_files,
                steps.build,
                steps.load,
                loaded.report.weight_files,
                shape,
                empty,
                trace,
                loaded.report.applied_tensors,
            ),
        exists|answer: Result<(), String>| #[trigger]
            call_ensures(steps.sync, (), answer) && answer is Ok,
{
    let model = choose|model: Result<(M, usize, Vec<PathBuf>), HuggingFaceLoadError>| #[trigger]
        model_loaded(
            Family::Qwen2,
            config,
            tied,
            steps.find_files,
            steps.build,
            steps.load,
            steps.tie,
            model,
        ) && match model {
            Err(error) => false,
            Ok((full, count, files)) => loaded.config == config && loaded.default_eos_token_ids
                == eos && loaded.report.weight_files == files && loaded.report.applied_tensors
                == count && loaded.report.tied_word_embeddings == tied && exists|
                answer: Result<(), String>,
            | #[trigger] call_ensures(steps.sync, (), answer) && answer is Ok,
        };
    let (full, count, files) = model->Ok_0;
    law_models_are_loaded_strictly(
        Family::Qwen2,
        config,
        tied,
        steps.find_files,
        steps.build,
        steps.load,
        steps.tie,
        full,
        count,
        files,
    );
}

} // verus!
