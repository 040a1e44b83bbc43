//! Where the tensors of a checkpoint go: from their names in a file to paths in a model.

use crate::huggingface::chat::{contains_text, occurs};
use crate::huggingface::loading::layer_tensor;
use crate::text::{decimal, digit, text};
use vstd::prelude::*;

verus! {

/// A name without a leading `model.`.
pub open spec fn without_root(name: Seq<char>) -> Seq<char> {
    if "model."@.is_prefix_of(name) {
        name.skip("model."@.len() as int)
    } else {
        name
    }
}

/// `name` ends in `suffix`, and what stands before that is on one line.
pub open spec fn ends_line(name: Seq<char>, suffix: Seq<char>) -> bool {
    suffix.is_suffix_of(name) && !occurs(before_suffix(name, suffix), "\n"@)
}

/// What stands before a suffix.
pub open spec fn before_suffix(name: Seq<char>, suffix: Seq<char>) -> Seq<char> {
    name.take(name.len() - suffix.len())
}

/// The weight of a normalization layer of a decoder layer, under the name that the model has for
/// it.
pub open spec fn with_gamma(name: Seq<char>) -> Seq<char> {
    if ends_line(name, ".input_layernorm.weight"@) {
        before_suffix(name, ".input_layernorm.weight"@) + ".input_layernorm.gamma"@
    } else if ends_line(name, ".post_attention_layernorm.weight"@) {
        before_suffix(name, ".post_attention_layernorm.weight"@)
            + ".post_attention_layernorm.gamma"@
    } else {
        name
    }
}

/// The path in a model of a tensor of a checkpoint.
pub open spec fn path_of(name: Seq<char>) -> Seq<char> {
    let renamed = with_gamma(without_root(name));
    if renamed == "norm.weight"@ {
        "norm.gamma"@
    } else {
        renamed
    }
}

/// Calls `str::strip_prefix` of std with a string slice as the pattern: the rest of a string that
/// begins with the prefix, and nothing of any other.
#[verifier::external_body]
fn strip_prefix<'a>(name: &'a str, prefix: &str) -> (rest: Option<&'a str>)
    ensures
        match rest {
            Some(rest) => prefix@.is_prefix_of(name@) && rest@ == name@.skip(prefix@.len() as int),
            None => !prefix@.is_prefix_of(name@),
        },
{
    name.strip_prefix(prefix)
}

/// Calls `str::strip_suffix` of std with a string slice as the pattern: the rest of a string that
/// ends in the suffix, and nothing of any other.
#[verifier::external_body]
fn strip_suffix<'a>(name: &'a str, suffix: &str) -> (rest: Option<&'a str>)
    ensures
        match rest {
            Some(rest) => suffix@.is_suffix_of(name@) && rest@ == before_suffix(name@, suffix@),
            None => !suffix@.is_suffix_of(name@),
        },
{
    name.strip_suffix(suffix)
}

/// Put another suffix in the place of one that ends a line.
fn replace_suffix(name: &str, suffix: &str, replacement: &str) -> (replaced: Option<String>)
    ensures
        match replaced {
            Some(replaced) => ends_line(name@, suffix@) && replaced@ == before_suffix(
                name@,
                suffix@,
            ) + replacement@,
            None => !ends_line(name@, suffix@),
        },
{
    match strip_suffix(name, suffix) {
        Some(stem) => {
            if contains_text(stem, "\n") {
                return None;
            }
            let mut replaced = text(stem);
            replaced.append(replacement);
            Some(replaced)
        },
        None => None,
    }
}

/// The path in a model of a tensor of a checkpoint: without a leading `model.`, and with the
/// weights of normalization layers under the name `gamma`.
pub fn parameter_path(name: &str) -> (path: String)
    ensures
        path@ == path_of(name@),
{
    let short = match strip_prefix(name, "model.") {
        Some(rest) => rest,
        None => name,
    };
    let renamed = match replace_suffix(short, ".input_layernorm.weight", ".input_layernorm.gamma") {
        Some(renamed) => renamed,
        None => match replace_suffix(
            short,
            ".post_attention_layernorm.weight",
            ".post_attention_layernorm.gamma",
        ) {
            Some(renamed) => renamed,
            None => text(short),
        },
    };
    if renamed == text("norm.weight") {
        text("norm.gamma")
    } else {
        renamed
    }
}

proof fn lemma_root_removed(name: Seq<char>)
    ensures
        without_root("model."@ + name) == name,
{
    let whole = "model."@ + name;
    assert(whole.take("model."@.len() as int) =~= "model."@);
    assert(whole.skip("model."@.len() as int) =~= name);
}

/// Decimal notation has no line break.
proof fn lemma_decimal_on_one_line(n: nat)
    ensures
        forall|i: int| 0 <= i < decimal(n).len() ==> #[trigger] decimal(n)[i] != '\n',
    decreases n,
{
    if n >= 10 {
        lemma_decimal_on_one_line(n / 10);
        assert forall|i: int| 0 <= i < decimal(n).len() implies #[trigger] decimal(n)[i]
            != '\n' by {
            if i < decimal(n / 10).len() {
                assert(decimal(n)[i] == decimal(n / 10)[i]);
            }
        }
    } else {
        assert(digit(n) != '\n');
    }
}

/// What stands before the dot of a tensor of a decoder layer.
spec fn layer_stem(layer: nat) -> Seq<char> {
    "layers."@ + decimal(layer)
}

proof fn lemma_layer_stem_on_one_line(layer: nat)
    ensures
        !occurs(layer_stem(layer), "\n"@),
{
    reveal_strlit("layers.");
    reveal_strlit("\n");
    lemma_decimal_on_one_line(layer);
    let stem = layer_stem(layer);
    assert forall|i: int| 0 <= i <= stem.len() - 1 implies #[trigger] stem.subrange(i, i + 1)
        != "\n"@ by {
        assert(stem.subrange(i, i + 1)[0] == stem[i]);
        if i >= 7 {
            assert(stem[i] == decimal(layer)[i - 7]);
        }
    }
}

/// A tensor of a decoder layer, split before the dot that follows the number of the layer.
proof fn lemma_layer_tensor_split(layer: nat, suffix: Seq<char>, dotted: Seq<char>)
    requires
        dotted == "."@ + suffix,
    ensures
        layer_tensor(layer, suffix) == layer_stem(layer) + dotted,
        dotted.is_suffix_of(layer_tensor(layer, suffix)),
        before_suffix(layer_tensor(layer, suffix), dotted) == layer_stem(layer),
{
    let whole = layer_tensor(layer, suffix);
    assert(whole =~= layer_stem(layer) + dotted);
    assert(whole.skip(whole.len() - dotted.len()) =~= dotted);
    assert(before_suffix(whole, dotted) =~= layer_stem(layer));
}

/// The normalization weights of every decoder layer of a checkpoint go to the paths that the model
/// expects them under.
pub proof fn law_layer_norms_are_renamed(layer: nat)
    ensures
        path_of("model."@ + layer_tensor(layer, "input_layernorm.weight"@)) == layer_tensor(
            layer,
            "input_layernorm.gamma"@,
        ),
        path_of("model."@ + layer_tensor(layer, "post_attention_layernorm.weight"@))
            == layer_tensor(layer, "post_attention_layernorm.gamma"@),
{
    reveal_strlit(".");
    reveal_strlit("input_layernorm.weight");
    reveal_strlit(".input_layernorm.weight");
    reveal_strlit("input_layernorm.gamma");
    reveal_strlit(".input_layernorm.gamma");
    reveal_strlit("post_attention_layernorm.weight");
    reveal_strlit(".post_attention_layernorm.weight");
    reveal_strlit("post_attention_layernorm.gamma");
    reveal_strlit(".post_attention_layernorm.gamma");
    reveal_strlit("norm.weight");
    reveal_strlit("layers.");
    assert(".input_layernorm.weight"@ =~= "."@ + "input_layernorm.weight"@);
    assert(".input_layernorm.gamma"@ =~= "."@ + "input_layernorm.gamma"@);
    assert(".post_attention_layernorm.weight"@ =~= "."@ + "post_attention_layernorm.weight"@);
    assert(".post_attention_layernorm.gamma"@ =~= "."@ + "post_attention_layernorm.gamma"@);
    lemma_layer_stem_on_one_line(layer);
    let first = layer_tensor(layer, "input_layernorm.weight"@);
    lemma_root_removed(first);
    lemma_layer_tensor_split(layer, "input_layernorm.weight"@, ".input_layernorm.weight"@);
    lemma_layer_tensor_split(layer, "input_layernorm.gamma"@, ".input_layernorm.gamma"@);
    assert(with_gamma(first)[0] == 'l');
    let second = layer_tensor(layer, "post_attention_layernorm.weight"@);
    lemma_root_removed(second);
    lemma_layer_tensor_split(
        layer,
        "post_attention_layernorm.weight"@,
        ".post_attention_layernorm.weight"@,
    );
    lemma_layer_tensor_split(
        layer,
        "post_attention_layernorm.gamma"@,
        ".post_attention_layernorm.gamma"@,
    );
    assert(second.skip(second.len() - 23)[0] != '.') by {
        assert(second[second.len() - 23] == "post_attention_layernorm.weight"@[8]);
    }
    assert(!ends_line(second, ".input_layernorm.weight"@));
    assert(with_gamma(second)[0] == 'l');
}

/// A tensor of a checkpoint keeps its name, but for the leading `model.`, unless it is the weight
/// of a normalization layer.
pub proof fn law_other_tensors_keep_their_names(name: Seq<char>)
    requires
        !".input_layernorm.weight"@.is_suffix_of(name),
        !".post_attention_layernorm.weight"@.is_suffix_of(name),
        name != "norm.weight"@,
    ensures
        path_of("model."@ + name) == name,
{
    lemma_root_removed(name);
}

} // verus!
