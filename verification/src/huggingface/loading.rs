//! Loading unquantized models: the tensors that a model expects, and the reckoning of what the
//! files of a checkpoint supplied.

use crate::huggingface::tensors::DType;
use crate::huggingface::HuggingFaceLoadError;
use crate::llama::LlamaConfig;
use crate::names::{difference, join, joined, lists, texts, NameMap, NameSet};
use crate::text::{decimal, push_number, text};
use std::path::PathBuf;
use vstd::prelude::*;

verus! {

/// What loading a model directory reports.
#[derive(Debug, Clone, PartialEq, Eq)]
pub struct HuggingFaceLoadReport {
    pub config_path: PathBuf,
    pub weight_files: Vec<PathBuf>,
    pub applied_tensors: usize,
    pub tied_word_embeddings: bool,
}

/// The tensors of a Llama decoder layer.
pub open spec fn layer_suffixes() -> Seq<Seq<char>> {
    seq![
        "self_attn.q_proj.weight"@,
        "self_attn.k_proj.weight"@,
        "self_attn.v_proj.weight"@,
        "self_attn.o_proj.weight"@,
        "mlp.gate_proj.weight"@,
        "mlp.up_proj.weight"@,
        "mlp.down_proj.weight"@,
        "input_layernorm.gamma"@,
        "post_attention_layernorm.gamma"@,
    ]
}

/// The tensors that a Qwen2 decoder layer has besides.
pub open spec fn bias_suffixes() -> Seq<Seq<char>> {
    seq!["self_attn.q_proj.bias"@, "self_attn.k_proj.bias"@, "self_attn.v_proj.bias"@]
}

/// A tensor of a decoder layer.
pub open spec fn layer_tensor(layer: nat, suffix: Seq<char>) -> Seq<char> {
    "layers."@ + decimal(layer) + "."@ + suffix
}

/// `name` is one of these tensors of one of the first `layers` layers.
pub open spec fn in_layers(layers: nat, suffixes: Seq<Seq<char>>, name: Seq<char>) -> bool {
    exists|layer: nat, i: int|
        layer < layers && 0 <= i < suffixes.len() && name == #[trigger] layer_tensor(
            layer,
            suffixes[i],
        )
}

/// `name` is a tensor of a Llama model.
pub open spec fn llama_tensor(layers: nat, tied: bool, name: Seq<char>) -> bool {
    ||| name == "embed_tokens.weight"@
    ||| name == "norm.gamma"@
    ||| !tied && name == "lm_head.weight"@
    ||| in_layers(layers, layer_suffixes(), name)
}

/// `name` is a tensor of a Qwen2 model.
pub open spec fn qwen2_tensor(layers: nat, tied: bool, name: Seq<char>) -> bool {
    llama_tensor(layers, tied, name) || in_layers(layers, bias_suffixes(), name)
}

/// Add a name to a set.
fn add_name(paths: &mut NameSet, name: String)
    requires
        old(paths).wf(),
    ensures
        final(paths).wf(),
        final(paths)@.dom() == old(paths)@.dom().insert(name@),
{
    let _ = paths.insert(name, ());
    assert(paths@.dom() =~= old(paths)@.dom().insert(name@));
}

fn add_layer_tensor(paths: &mut NameSet, layer: usize, suffix: &str)
    requires
        old(paths).wf(),
    ensures
        final(paths).wf(),
        final(paths)@.dom() == old(paths)@.dom().insert(layer_tensor(layer as nat, suffix@)),
{
    let mut name = text("layers.");
    push_number(&mut name, layer as u64);
    name.append(".");
    name.append(suffix);
    add_name(paths, name);
}

/// The names that a layer adds.
pub open spec fn layer_names(layer: nat, suffixes: Seq<Seq<char>>) -> Set<Seq<char>> {
    Set::new(
        |name: Seq<char>|
            exists|i: int|
                0 <= i < suffixes.len() && name == #[trigger] layer_tensor(layer, suffixes[i]),
    )
}

proof fn lemma_in_layers_step(layers: nat, suffixes: Seq<Seq<char>>, name: Seq<char>)
    ensures
        in_layers(layers + 1, suffixes, name) <==> in_layers(layers, suffixes, name)
            || layer_names(layers, suffixes).contains(name),
{
    if in_layers(layers + 1, suffixes, name) {
        let (layer, i) = choose|layer: nat, i: int|
            layer < layers + 1 && 0 <= i < suffixes.len() && name == #[trigger] layer_tensor(
                layer,
                suffixes[i],
            );
        if layer < layers {
            assert(name == layer_tensor(layer, suffixes[i]));
        } else {
            assert(name == layer_tensor(layers, suffixes[i]));
        }
    }
    if in_layers(layers, suffixes, name) {
        let (layer, i) = choose|layer: nat, i: int|
            layer < layers && 0 <= i < suffixes.len() && name == #[trigger] layer_tensor(
                layer,
                suffixes[i],
            );
        assert(name == layer_tensor(layer, suffixes[i]));
    }
    if layer_names(layers, suffixes).contains(name) {
        let i = choose|i: int|
            0 <= i < suffixes.len() && name == #[trigger] layer_tensor(layers, suffixes[i]);
        assert(name == layer_tensor(layers, suffixes[i]));
    }
}

fn add_layer(paths: &mut NameSet, layer: usize)
    requires
        old(paths).wf(),
    ensures
        final(paths).wf(),
        final(paths)@.dom() == old(paths)@.dom().union(
            layer_names(layer as nat, layer_suffixes()),
        ),
{
    let ghost before = paths@.dom();
    add_layer_tensor(paths, layer, "self_attn.q_proj.weight");
    add_layer_tensor(paths, layer, "self_attn.k_proj.weight");
    add_layer_tensor(paths, layer, "self_attn.v_proj.weight");
    add_layer_tensor(paths, layer, "self_attn.o_proj.weight");
    add_layer_tensor(paths, layer, "mlp.gate_proj.weight");
    add_layer_tensor(paths, layer, "mlp.up_proj.weight");
    add_layer_tensor(paths, layer, "mlp.down_proj.weight");
    add_layer_tensor(paths, layer, "input_layernorm.gamma");
    add_layer_tensor(paths, layer, "post_attention_layernorm.gamma");
    proof {
        let n = layer as nat;
        let s = layer_suffixes();
        assert forall|name: Seq<char>| #[trigger] paths@.dom().contains(name) == before.union(
            layer_names(n, s),
        ).contains(name) by {
            if layer_names(n, s).contains(name) {
                let i = choose|i: int| 0 <= i < s.len() && name == #[trigger] layer_tensor(n, s[i]);
                assert(i == 0 || i == 1 || i == 2 || i == 3 || i == 4 || i == 5 || i == 6 || i == 7
                    || i == 8);
            }
            assert(layer_names(n, s).contains(layer_tensor(n, s[0])));
            assert(layer_names(n, s).contains(layer_tensor(n, s[1])));
            assert(layer_names(n, s).contains(layer_tensor(n, s[2])));
            assert(layer_names(n, s).contains(layer_tensor(n, s[3])));
            assert(layer_names(n, s).contains(layer_tensor(n, s[4])));
            assert(layer_names(n, s).contains(layer_tensor(n, s[5])));
            assert(layer_names(n, s).contains(layer_tensor(n, s[6])));
            assert(layer_names(n, s).contains(layer_tensor(n, s[7])));
            assert(layer_names(n, s).contains(layer_tensor(n, s[8])));
        }
        assert(paths@.dom() =~= before.union(layer_names(n, s)));
    }
}

fn add_biases(paths: &mut NameSet, layer: usize)
    requires
        old(paths).wf(),
    ensures
        final(paths).wf(),
        final(paths)@.dom() == old(paths)@.dom().union(layer_names(layer as nat, bias_suffixes())),
{
    let ghost before = paths@.dom();
    add_layer_tensor(paths, layer, "self_attn.q_proj.bias");
    add_layer_tensor(paths, layer, "self_attn.k_proj.bias");
    add_layer_tensor(paths, layer, "self_attn.v_proj.bias");
    proof {
        let n = layer as nat;
        let s = bias_suffixes();
        assert forall|name: Seq<char>| #[trigger] paths@.dom().contains(name) == before.union(
            layer_names(n, s),
        ).contains(name) by {
            if layer_names(n, s).contains(name) {
                let i = choose|i: int| 0 <= i < s.len() && name == #[trigger] layer_tensor(n, s[i]);
                assert(i == 0 || i == 1 || i == 2);
            }
            assert(layer_names(n, s).contains(layer_tensor(n, s[0])));
            assert(layer_names(n, s).contains(layer_tensor(n, s[1])));
            assert(layer_names(n, s).contains(layer_tensor(n, s[2])));
        }
        assert(paths@.dom() =~= before.union(layer_names(n, s)));
    }
}

/// The tensors of a Llama model.
pub fn expected_tensor_paths(layers: usize, tied_word_embeddings: bool) -> (paths: NameSet)
    ensures
        paths.wf(),
        forall|name: Seq<char>| #[trigger]
            paths@.dom().contains(name) <==> llama_tensor(
                layers as nat,
                tied_word_embeddings,
                name,
            ),
{
    let mut paths: NameSet = NameMap::new();
    add_name(&mut paths, text("embed_tokens.weight"));
    add_name(&mut paths, text("norm.gamma"));
    if !tied_word_embeddings {
        add_name(&mut paths, text("lm_head.weight"));
    }
    let mut layer: usize = 0;
    while layer < layers
        invariant
            layer <= layers,
            paths.wf(),
            forall|name: Seq<char>| #[trigger]
                paths@.dom().contains(name) <==> llama_tensor(
                    layer as nat,
                    tied_word_embeddings,
                    name,
                ),
        decreases layers - layer,
    {
        let ghost before = paths@.dom();
        add_layer(&mut paths, layer);
        proof {
            assert forall|name: Seq<char>| #[trigger]
                paths@.dom().contains(name) <==> llama_tensor(
                (layer + 1) as nat,
                tied_word_embeddings,
                name,
            ) by {
                lemma_in_layers_step(layer as nat, layer_suffixes(), name);
                assert(before.contains(name) <==> llama_tensor(
                    layer as nat,
                    tied_word_embeddings,
                    name,
                ));
            }
        }
        layer += 1;
    }
    paths
}

/// The tensors of a Qwen2 model.
pub fn expected_qwen2_tensor_paths(layers: usize, tied_word_embeddings: bool) -> (paths: NameSet)
    ensures
        paths.wf(),
        forall|name: Seq<char>| #[trigger]
            paths@.dom().contains(name) <==> qwen2_tensor(
                layers as nat,
                tied_word_embeddings,
                name,
            ),
{
    let mut paths = expected_tensor_paths(layers, tied_word_embeddings);
    let mut layer: usize = 0;
    while layer < layers
        invariant
            layer <= layers,
            paths.wf(),
            forall|name: Seq<char>| #[trigger]
                paths@.dom().contains(name) <==> llama_tensor(
                    layers as nat,
                    tied_word_embeddings,
                    name,
                ) || in_layers(layer as nat, bias_suffixes(), name),
        decreases layers - layer,
    {
        let ghost before = paths@.dom();
        add_biases(&mut paths, layer);
        proof {
            assert forall|name: Seq<char>| #[trigger]
                paths@.dom().contains(name) <==> llama_tensor(
                layers as nat,
                tied_word_embeddings,
                name,
            ) || in_layers((layer + 1) as nat, bias_suffixes(), name) by {
                lemma_in_layers_step(layer as nat, bias_suffixes(), name);
                assert(before.contains(name) <==> llama_tensor(
                    layers as nat,
                    tied_word_embeddings,
                    name,
                ) || in_layers(layer as nat, bias_suffixes(), name));
            }
        }
        layer += 1;
    }
    paths
}

/// Which family of models is loaded.
#[derive(Debug, Clone, Copy, PartialEq, Eq, Structural)]
pub enum Family {
    Llama,
    Qwen2,
}

impl Family {
    /// The name of the family in messages.
    pub open spec fn name(self) -> Seq<char> {
        match self {
            Family::Llama => "Llama"@,
            Family::Qwen2 => "Qwen2"@,
        }
    }

    /// The name of the family in messages.
    pub fn as_str(self) -> (name: &'static str)
        ensures
            name@ == self.name(),
    {
        match self {
            Family::Llama => "Llama",
            Family::Qwen2 => "Qwen2",
        }
    }

    /// `name` is a tensor of a model of the family.
    pub open spec fn has_tensor(self, layers: nat, tied: bool, name: Seq<char>) -> bool {
        match self {
            Family::Llama => llama_tensor(layers, tied, name),
            Family::Qwen2 => qwen2_tensor(layers, tied, name),
        }
    }

    /// The tensors of a model of the family.
    pub fn expected(self, layers: usize, tied_word_embeddings: bool) -> (paths: NameSet)
        ensures
            paths.wf(),
            forall|name: Seq<char>| #[trigger]
                paths@.dom().contains(name) <==> self.has_tensor(
                    layers as nat,
                    tied_word_embeddings,
                    name,
                ),
    {
        match self {
            Family::Llama => expected_tensor_paths(layers, tied_word_embeddings),
            Family::Qwen2 => expected_qwen2_tensor_paths(layers, tied_word_embeddings),
        }
    }
}

/// What the files of a checkpoint supplied so far: the tensors that went into the model, and those
/// that it had no use for.
#[derive(Debug)]
pub struct ShardLedger {
    pub applied: NameSet,
    pub unused: NameSet,
}

/// The first of `names` that is in `seen` or earlier in `names`.
pub open spec fn repeated(seen: Set<Seq<char>>, names: Seq<Seq<char>>) -> Option<Seq<char>>
    decreases names.len(),
{
    if names.len() == 0 {
        None
    } else {
        let earlier = names.drop_last();
        match repeated(seen, earlier) {
            Some(name) => Some(name),
            None => if seen.union(earlier.to_set()).contains(names.last()) {
                Some(names.last())
            } else {
                None
            },
        }
    }
}

proof fn lemma_repeated_prefix(seen: Set<Seq<char>>, names: Seq<Seq<char>>, n: int)
    requires
        0 <= n <= names.len(),
        repeated(seen, names.take(n)) is Some,
    ensures
        repeated(seen, names) == repeated(seen, names.take(n)),
    decreases names.len() - n,
{
    if n == names.len() {
        assert(names.take(n) =~= names);
    } else {
        assert(names.take(n + 1).drop_last() =~= names.take(n));
        lemma_repeated_prefix(seen, names, n + 1);
    }
}

/// What is wrong with what the files supplied: tensors that the model misses, or that it has no
/// place for.
pub open spec fn reckoning_fault(
    family: Family,
    expected: Set<Seq<char>>,
    applied: Set<Seq<char>>,
    unused: Set<Seq<char>>,
    tied: bool,
    message: Seq<char>,
) -> bool {
    let missing = expected.difference(applied);
    let unexpected = unexpected_names(unused, tied);
    if missing != Set::<Seq<char>>::empty() {
        exists|names: Seq<Seq<char>>| #[trigger]
            lists(names, missing) && message == "Hugging Face model is missing Ruda "@
                + family.name() + " tensors: "@ + joined(names, ", "@)
    } else {
        unexpected != Set::<Seq<char>>::empty() && exists|names: Seq<Seq<char>>| #[trigger]
            lists(names, unexpected) && message
                == "Hugging Face model contains tensors not represented by Ruda "@ + family.name()
                + ": "@ + joined(names, ", "@)
    }
}

/// The tensors that a model has no place for. A head that tied embeddings stand for is no such
/// tensor.
pub open spec fn unexpected_names(unused: Set<Seq<char>>, tied: bool) -> Set<Seq<char>> {
    if tied {
        unused.remove("lm_head.weight"@)
    } else {
        unused
    }
}

impl ShardLedger {
    /// Both sets are in order.
    pub open spec fn wf(&self) -> bool {
        self.applied.wf() && self.unused.wf()
    }

    pub fn new() -> (ledger: Self)
        ensures
            ledger.wf(),
            ledger.applied@.dom() == Set::<Seq<char>>::empty(),
            ledger.unused@.dom() == Set::<Seq<char>>::empty(),
    {
        let ledger = ShardLedger { applied: NameMap::new(), unused: NameMap::new() };
        assert(ledger.applied@.dom() =~= Set::<Seq<char>>::empty());
        assert(ledger.unused@.dom() =~= Set::<Seq<char>>::empty());
        ledger
    }

    /// Enter what one file supplied. No tensor may be supplied twice.
    pub fn record(&mut self, applied: &Vec<String>, unused: &Vec<String>) -> (result: Result<
        (),
        HuggingFaceLoadError,
    >)
        requires
            old(self).wf(),
        ensures
            final(self).wf(),
            match (result, repeated(old(self).applied@.dom(), texts(applied@))) {
                (Ok(_), None) => final(self).applied@.dom() == old(self).applied@.dom().union(
                    texts(applied@).to_set(),
                ) && final(self).unused@.dom() == old(self).unused@.dom().union(
                    texts(unused@).to_set(),
                ),
                (Err(error), Some(name)) => error.0@ == "tensor "@ + name
                    + " was supplied by more than one Safetensors shard"@,
                _ => false,
            },
    {
        let ghost seen = self.applied@.dom();
        let ghost kept = self.unused@.dom();
        let ghost names = texts(applied@);
        let ghost rest = texts(unused@);
        let mut i: usize = 0;
        assert(names.take(0) =~= Seq::<Seq<char>>::empty());
        assert(self.applied@.dom() =~= seen.union(names.take(0).to_set()));
        while i < applied.len()
            invariant
                self.wf(),
                names == texts(applied@),
                seen == old(self).applied@.dom(),
                self.unused@.dom() == kept,
                i <= applied@.len(),
                repeated(seen, names.take(i as int)) is None,
                self.applied@.dom() == seen.union(names.take(i as int).to_set()),
            decreases applied@.len() - i,
        {
            let name = &applied[i];
            let ghost shorter = names.take(i as int);
            let ghost longer = names.take(i + 1);
            proof {
                assert(longer.drop_last() =~= shorter);
                assert(longer.last() == name@);
            }
            let new = self.applied.insert(name.clone(), ());
            if !new {
                proof {
                    lemma_repeated_prefix(seen, names, i + 1);
                }
                let mut message = text("tensor ");
                message.append(name.as_str());
                message.append(" was supplied by more than one Safetensors shard");
                return Err(HuggingFaceLoadError(message));
            }
            proof {
                lemma_to_set_push(shorter, name@);
                assert(longer =~= shorter.push(name@));
                assert(self.applied@.dom() =~= seen.union(longer.to_set()));
            }
            i += 1;
        }
        assert(names.take(i as int) =~= names);
        let mut j: usize = 0;
        assert(rest.take(0) =~= Seq::<Seq<char>>::empty());
        assert(self.unused@.dom() =~= kept.union(rest.take(0).to_set()));
        while j < unused.len()
            invariant
                self.wf(),
                rest == texts(unused@),
                kept == old(self).unused@.dom(),
                self.applied@.dom() == seen.union(names.to_set()),
                j <= unused@.len(),
                self.unused@.dom() == kept.union(rest.take(j as int).to_set()),
            decreases unused@.len() - j,
        {
            let name = &unused[j];
            let ghost shorter = rest.take(j as int);
            add_name(&mut self.unused, name.clone());
            proof {
                lemma_to_set_push(shorter, name@);
                assert(rest.take(j + 1) =~= shorter.push(name@));
                assert(self.unused@.dom() =~= kept.union(rest.take(j + 1).to_set()));
            }
            j += 1;
        }
        assert(rest.take(j as int) =~= rest);
        Ok(())
    }

    /// Settle the ledger against what the model expects; the number of tensors that went into it.
    pub fn settle(self, family: Family, layers: usize, tied_word_embeddings: bool) -> (result: Result<
        usize,
        HuggingFaceLoadError,
    >)
        requires
            self.wf(),
        ensures
            ({
                let expected = Set::new(
                    |name: Seq<char>|
                        family.has_tensor(layers as nat, tied_word_embeddings, name),
                );
                match result {
                    Ok(count) => expected.subset_of(self.applied@.dom()) && unexpected_names(
                        self.unused@.dom(),
                        tied_word_embeddings,
                    ) == Set::<Seq<char>>::empty() && count == self.applied@.dom().len(),
                    Err(error) => reckoning_fault(
                        family,
                        expected,
                        self.applied@.dom(),
                        self.unused@.dom(),
                        tied_word_embeddings,
                        error.0@,
                    ),
                }
            }),
    {
        let expected = family.expected(layers, tied_word_embeddings);
        let ghost wanted = Set::new(
            |name: Seq<char>| family.has_tensor(layers as nat, tied_word_embeddings, name),
        );
        assert(expected@.dom() =~= wanted);
        let missing = difference(&expected, &self.applied);
        proof {
            lemma_listing_empty(texts(missing@), wanted.difference(self.applied@.dom()));
        }
        if missing.len() > 0 {
            let mut message = text("Hugging Face model is missing Ruda ");
            message.append(family.as_str());
            message.append(" tensors: ");
            message.append(join(&missing, ", ").as_str());
            return Err(HuggingFaceLoadError(message));
        }
        proof {
            assert forall|name: Seq<char>| wanted.contains(name) implies #[trigger] self.applied@.dom().contains(
                name,
            ) by {
                if !self.applied@.dom().contains(name) {
                    assert(wanted.difference(self.applied@.dom()).contains(name));
                }
            }
        }
        let mut forgiven: NameSet = NameMap::new();
        if tied_word_embeddings {
            add_name(&mut forgiven, text("lm_head.weight"));
        }
        let unexpected = difference(&self.unused, &forgiven);
        proof {
            assert(self.unused@.dom().difference(forgiven@.dom()) =~= unexpected_names(
                self.unused@.dom(),
                tied_word_embeddings,
            ));
            lemma_listing_empty(
                texts(unexpected@),
                unexpected_names(self.unused@.dom(), tied_word_embeddings),
            );
        }
        if unexpected.len() > 0 {
            let mut message = text("Hugging Face model contains tensors not represented by Ruda ");
            message.append(family.as_str());
            message.append(": ");
            message.append(join(&unexpected, ", ").as_str());
            return Err(HuggingFaceLoadError(message));
        }
        Ok(self.applied.len())
    }
}

/// What settling an unquantized checkpoint comes to.
pub open spec fn settled(
    family: Family,
    config: LlamaConfig,
    tied: bool,
    ledger: ShardLedger,
    result: Result<usize, Seq<char>>,
) -> bool {
    let expected = Set::new(
        |name: Seq<char>| family.has_tensor(config.num_hidden_layers as nat, tied, name),
    );
    match result {
        Ok(count) => expected.subset_of(ledger.applied@.dom()) && unexpected_names(
            ledger.unused@.dom(),
            tied,
        ) == Set::<Seq<char>>::empty() && count == ledger.applied@.dom().len(),
        Err(message) => reckoning_fault(
            family,
            expected,
            ledger.applied@.dom(),
            ledger.unused@.dom(),
            tied,
            message,
        ),
    }
}

/// A set is empty exactly where its listing is.
proof fn lemma_listing_empty(names: Seq<Seq<char>>, set: Set<Seq<char>>)
    requires
        lists(names, set),
    ensures
        names.len() == 0 <==> set == Set::<Seq<char>>::empty(),
{
    if names.len() > 0 {
        assert(names.to_set().contains(names[0]));
    } else {
        assert(names.to_set() =~= Set::<Seq<char>>::empty());
    }
}

proof fn lemma_to_set_push(names: Seq<Seq<char>>, name: Seq<char>)
    ensures
        names.push(name).to_set() == names.to_set().insert(name),
{
    let longer = names.push(name);
    assert forall|x: Seq<char>| #[trigger] longer.to_set().contains(x) == names.to_set().insert(
        name,
    ).contains(x) by {
        if longer.contains(x) {
            let i = choose|i: int| 0 <= i < longer.len() && longer[i] == x;
            if i < names.len() {
                assert(names[i] == x);
            }
        }
        if names.contains(x) {
            let i = choose|i: int| 0 <= i < names.len() && names[i] == x;
            assert(longer[i] == x);
        }
        assert(longer[names.len() as int] == name);
    }
    assert(longer.to_set() =~= names.to_set().insert(name));
}

/// Which rotary tables a model needs besides the one it was made with: what to build, and which of
/// those each layer uses.
#[derive(Debug)]
pub struct RotaryPlan {
    pub build: Vec<DType>,
    pub layers: Vec<Option<usize>>,
}

/// The types of the weights of the layers before `n` whose table is of another type, each once, in
/// the order in which they come up.
pub open spec fn needed_tables(layers: Seq<(DType, DType)>) -> Seq<DType>
    decreases layers.len(),
{
    if layers.len() == 0 {
        Seq::empty()
    } else {
        let earlier = needed_tables(layers.drop_last());
        let (weight, table) = layers.last();
        if weight == table || earlier.contains(weight) {
            earlier
        } else {
            earlier.push(weight)
        }
    }
}

/// A layer keeps its table where that is of the type of its weights, and uses one of the built ones
/// otherwise.
pub open spec fn table_chosen(build: Seq<DType>, layer: (DType, DType), choice: Option<usize>) -> bool {
    match choice {
        None => layer.0 == layer.1,
        Some(index) => layer.0 != layer.1 && index < build.len() && build[index as int] == layer.0,
    }
}

fn find_table(build: &Vec<DType>, wanted: DType) -> (found: Option<usize>)
    ensures
        match found {
            Some(index) => index < build@.len() && build@[index as int] == wanted,
            None => !build@.contains(wanted),
        },
{
    let mut i: usize = 0;
    while i < build.len()
        invariant
            i <= build@.len(),
            forall|j: int| 0 <= j < i ==> #[trigger] build@[j] != wanted,
        decreases build@.len() - i,
    {
        if build[i] == wanted {
            return Some(i);
        }
        i += 1;
    }
    None
}

/// Give every layer a rotary table of the type of its weights, building each table once.
///
/// A layer is the type of its query weights and the type of the table that it was made with.
pub fn rotary_plan(layers: &[(DType, DType)]) -> (plan: RotaryPlan)
    ensures
        plan.build@ == needed_tables(layers@),
        plan.layers@.len() == layers@.len(),
        forall|i: int|
            0 <= i < layers@.len() ==> table_chosen(
                plan.build@,
                layers@[i],
                #[trigger] plan.layers@[i],
            ),
{
    let mut build: Vec<DType> = Vec::new();
    let mut choices: Vec<Option<usize>> = Vec::with_capacity(layers.len());
    let mut i: usize = 0;
    assert(layers@.take(0) =~= Seq::empty());
    while i < layers.len()
        invariant
            i <= layers@.len(),
            build@ == needed_tables(layers@.take(i as int)),
            choices@.len() == i,
            forall|j: int|
                0 <= j < i ==> table_chosen(build@, layers@[j], #[trigger] choices@[j]),
        decreases layers@.len() - i,
    {
        let (weight, table) = layers[i];
        proof {
            assert(layers@.take(i + 1).drop_last() =~= layers@.take(i as int));
            assert(layers@.take(i + 1).last() == layers@[i as int]);
        }
        if weight == table {
            choices.push(None);
        } else {
            match find_table(&build, weight) {
                Some(index) => {
                    assert(build@.contains(weight)) by {
                        assert(build@[index as int] == weight);
                    }
                    choices.push(Some(index));
                },
                None => {
                    let index: usize = build.len();
                    build.push(weight);
                    choices.push(Some(index));
                },
            }
        }
        i += 1;
    }
    assert(layers@.take(i as int) =~= layers@);
    RotaryPlan { build, layers: choices }
}

} // verus!
