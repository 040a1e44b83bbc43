//! AWQ checkpoints: four-bit packed projections, checked before anything is uploaded.

use crate::huggingface::tensors::{
    equal_shapes, push_shape, shape_text, worded, DType, Inventory, TensorInfo, Wording,
};
use crate::huggingface::{refuse, HuggingFaceLoadError};
use crate::names::{lists, texts, NameMap};
use crate::text::text;
use std::path::PathBuf;
use vstd::prelude::*;

verus! {

#[derive(Debug, Clone)]
pub struct AwqQuantizationConfig {
    pub quant_method: String,
    pub bits: usize,
    pub group_size: i64,
    pub zero_point: bool,
    pub version: String,
    pub modules_to_not_convert: Option<Vec<String>>,
}

/// A character with ASCII capitals made small.
pub open spec fn small(c: char) -> int {
    if 'A' <= c <= 'Z' {
        c as int + 32
    } else {
        c as int
    }
}

/// Two strings are equal but for the case of ASCII letters.
pub open spec fn same_but_case(a: Seq<char>, b: Seq<char>) -> bool {
    a.len() == b.len() && forall|i: int|
        0 <= i < a.len() ==> small(#[trigger] a[i]) == small(#[trigger] b[i])
}

/// Calls `str::eq_ignore_ascii_case` of std: equality with ASCII capitals made small.
#[verifier::external_body]
fn equals_ignoring_case(a: &str, b: &str) -> (same: bool)
    ensures
        same == same_but_case(a@, b@),
{
    a.eq_ignore_ascii_case(b)
}

/// How the input features of a projection are grouped.
#[derive(Debug, Clone, Copy, PartialEq, Eq, Structural)]
pub struct AwqLayout {
    pub input_features: usize,
    pub output_features: usize,
    pub group_size: usize,
}

impl AwqQuantizationConfig {
    /// Why a quantization is not supported.
    pub open spec fn fault(self) -> Option<Seq<char>> {
        if !same_but_case(self.quant_method@, "awq"@) || self.bits != 4 || !same_but_case(
            self.version@,
            "gemm"@,
        ) || !self.zero_point {
            Some("expected AWQ GEMM with four bits and explicit zero points"@)
        } else if self.group_size != -1 && self.group_size <= 0 {
            Some("AWQ group_size must be positive or -1"@)
        } else {
            None
        }
    }

    /// Why a projection cannot be grouped.
    pub open spec fn layout_fault(self) -> Option<Seq<char>> {
        if self.fault() is Some {
            self.fault()
        } else if self.group_size > usize::MAX {
            Some("AWQ group_size exceeds address range"@)
        } else {
            None
        }
    }

    /// The group size of a projection: all input features where the configuration says -1.
    pub open spec fn group_of(self, input_features: usize) -> usize {
        if self.group_size == -1 {
            input_features
        } else {
            self.group_size as usize
        }
    }

    pub fn validate(&self) -> (result: Result<(), HuggingFaceLoadError>)
        ensures
            match (result, self.fault()) {
                (Ok(_), None) => true,
                (Err(error), Some(message)) => error.0@ == message,
                _ => false,
            },
    {
        if !equals_ignoring_case(self.quant_method.as_str(), "awq") || self.bits != 4
            || !equals_ignoring_case(self.version.as_str(), "gemm") || !self.zero_point {
            return Err(refuse("expected AWQ GEMM with four bits and explicit zero points"));
        }
        if self.group_size != -1 && self.group_size <= 0 {
            return Err(refuse("AWQ group_size must be positive or -1"));
        }
        Ok(())
    }

    pub fn layout(&self, input_features: usize, output_features: usize) -> (result: Result<
        AwqLayout,
        HuggingFaceLoadError,
    >)
        ensures
            match (result, self.layout_fault()) {
                (Ok(layout), None) => layout == (AwqLayout {
                    input_features,
                    output_features,
                    group_size: self.group_of(input_features),
                }),
                (Err(error), Some(message)) => error.0@ == message,
                _ => false,
            },
    {
        match self.validate() {
            Ok(_) => {},
            Err(error) => {
                return Err(error);
            },
        }
        let group_size: usize = if self.group_size == -1 {
            input_features
        } else {
            let wanted: u64 = self.group_size as u64;
            if wanted > usize::MAX as u64 {
                return Err(refuse("AWQ group_size exceeds address range"));
            }
            wanted as usize
        };
        Ok(AwqLayout { input_features, output_features, group_size })
    }
}

/// How faults of an AWQ inventory are worded.
pub open spec fn awq_wording_spec() -> Wording {
    Wording {
        unindexed: ("tensor ", " is missing from the Safetensors index"),
        misplaced: ("tensor ", " is in a different shard than its index entry"),
        duplicate: ("duplicate checkpoint tensor: ", ""),
        absent: ("indexed tensor is missing from its shard: ", ""),
    }
}

/// How faults of an AWQ inventory are worded.
pub fn awq_wording() -> (words: Wording)
    ensures
        words == awq_wording_spec(),
{
    Wording {
        unindexed: ("tensor ", " is missing from the Safetensors index"),
        misplaced: ("tensor ", " is in a different shard than its index entry"),
        duplicate: ("duplicate checkpoint tensor: ", ""),
        absent: ("indexed tensor is missing from its shard: ", ""),
    }
}

/// An opened checkpoint.
#[derive(Debug)]
pub struct AwqCheckpoint {
    pub directory: PathBuf,
    pub weight_files: Vec<PathBuf>,
    pub quantization: AwqQuantizationConfig,
    pub tensors: NameMap<TensorInfo>,
}

/// The tensors of a packed projection, and how it is grouped.
#[derive(Debug)]
pub struct AwqLinear {
    pub qweight: String,
    pub qzeros: String,
    pub scales: String,
    pub bias: Option<String>,
    pub group_size: usize,
}

/// A name under a prefix.
pub open spec fn under(prefix: Seq<char>, suffix: Seq<char>) -> Seq<char> {
    prefix + "."@ + suffix
}

/// A name under a prefix.
pub(crate) fn name_under(prefix: &str, suffix: &str) -> (name: String)
    ensures
        name@ == under(prefix@, suffix@),
{
    let mut name = text(prefix);
    name.append(".");
    name.append(suffix);
    name
}

/// What is wrong with a tensor that has to be there.
pub open spec fn required_fault(
    tensors: Map<Seq<char>, TensorInfo>,
    name: Seq<char>,
    shape: Seq<usize>,
    dtype: DType,
) -> Option<Seq<char>> {
    if !tensors.contains_key(name) {
        Some("missing checkpoint tensor: "@ + name)
    } else if tensors[name]@ != (dtype, shape) {
        Some(
            name + ": expected "@ + dtype.name() + " "@ + shape_text(shape) + ", found "@
                + tensors[name].dtype.name() + " "@ + shape_text(tensors[name].shape@),
        )
    } else {
        None
    }
}

/// What is wrong with the tensors of a packed projection of `groups` groups.
pub open spec fn packed_fault(
    tensors: Map<Seq<char>, TensorInfo>,
    prefix: Seq<char>,
    input: usize,
    output: usize,
    has_bias: bool,
    groups: usize,
) -> Option<Seq<char>> {
    let blocks = (output / 8) as usize;
    let weight = required_fault(
        tensors,
        under(prefix, "qweight"@),
        seq![input, blocks],
        DType::I32,
    );
    let zeros = required_fault(
        tensors,
        under(prefix, "qzeros"@),
        seq![groups, blocks],
        DType::I32,
    );
    let scales = required_fault(
        tensors,
        under(prefix, "scales"@),
        seq![groups, output],
        DType::F16,
    );
    let bias = under(prefix, "bias"@);
    if weight is Some {
        weight
    } else if zeros is Some {
        zeros
    } else if scales is Some {
        scales
    } else if has_bias && required_fault(tensors, bias, seq![output], DType::F16) is Some {
        required_fault(tensors, bias, seq![output], DType::F16)
    } else if !has_bias && tensors.contains_key(bias) {
        Some("unexpected bias: "@ + bias)
    } else if tensors.contains_key(under(prefix, "weight"@)) {
        Some("unexpected AWQ GEMM tensor: "@ + under(prefix, "weight"@))
    } else if tensors.contains_key(under(prefix, "g_idx"@)) {
        Some("unexpected AWQ GEMM tensor: "@ + under(prefix, "g_idx"@))
    } else {
        None
    }
}

/// What is wrong with a packed projection: its grouping, or its tensors.
pub open spec fn linear_fault(
    quantization: AwqQuantizationConfig,
    tensors: Map<Seq<char>, TensorInfo>,
    prefix: Seq<char>,
    input: usize,
    output: usize,
    has_bias: bool,
    groups: Result<usize, String>,
) -> Option<Seq<char>> {
    if quantization.layout_fault() is Some {
        quantization.layout_fault()
    } else {
        match groups {
            Err(message) => Some(message@),
            Ok(groups) => packed_fault(tensors, prefix, input, output, has_bias, groups),
        }
    }
}

/// The tensors of a packed projection.
pub open spec fn linear_names(
    linear: AwqLinear,
    prefix: Seq<char>,
    has_bias: bool,
) -> bool {
    &&& linear.qweight@ == under(prefix, "qweight"@)
    &&& linear.qzeros@ == under(prefix, "qzeros"@)
    &&& linear.scales@ == under(prefix, "scales"@)
    &&& match linear.bias {
        Some(bias) => has_bias && bias@ == under(prefix, "bias"@),
        None => !has_bias,
    }
}

impl AwqCheckpoint {
    /// The tensors are in order.
    pub open spec fn wf(&self) -> bool {
        self.tensors.wf()
    }

    /// A checkpoint of a supported quantization, whose files hold what its index says.
    pub fn open(
        directory: PathBuf,
        quantization: AwqQuantizationConfig,
        weight_files: Vec<PathBuf>,
        inventory: Inventory,
    ) -> (result: Result<Self, HuggingFaceLoadError>)
        requires
            inventory.wf(),
        ensures
            match result {
                Ok(checkpoint) => {
                    &&& checkpoint.wf()
                    &&& quantization.fault() is None
                    &&& checkpoint.directory == directory
                    &&& checkpoint.weight_files == weight_files
                    &&& checkpoint.quantization == quantization
                    &&& checkpoint.tensors@ == inventory.tensors@
                    &&& inventory.indexed() matches Some(index) ==> index.dom().subset_of(
                        inventory.tensors@.dom(),
                    )
                },
                Err(error) => match quantization.fault() {
                    Some(message) => error.0@ == message,
                    None => inventory.indexed() is Some && exists|name: Seq<char>| #[trigger]
                        crate::huggingface::tensors::first_absent(
                            inventory.indexed()->0.dom(),
                            inventory.tensors@.dom(),
                            name,
                        ) && error.0@ == worded(awq_wording_spec().absent, name),
                },
            },
    {
        match quantization.validate() {
            Ok(_) => {},
            Err(error) => {
                return Err(error);
            },
        }
        let words = awq_wording();
        match inventory.finish(&words) {
            Ok(tensors) => Ok(AwqCheckpoint { directory, weight_files, quantization, tensors }),
            Err(error) => Err(error),
        }
    }

    pub fn directory(&self) -> (directory: &PathBuf)
        ensures
            *directory == self.directory,
    {
        &self.directory
    }

    pub fn weight_files(&self) -> (files: &Vec<PathBuf>)
        ensures
            *files == self.weight_files,
    {
        &self.weight_files
    }

    pub fn quantization(&self) -> (quantization: &AwqQuantizationConfig)
        ensures
            *quantization == self.quantization,
    {
        &self.quantization
    }

    /// The names of the tensors, in ascending order.
    pub fn tensor_names(&self) -> (names: Vec<String>)
        requires
            self.wf(),
        ensures
            lists(texts(names@), self.tensors@.dom()),
    {
        let none: NameMap<()> = NameMap::new();
        let names = crate::names::difference(&self.tensors, &none);
        assert(self.tensors@.dom().difference(none@.dom()) =~= self.tensors@.dom());
        names
    }

    /// The elements of a tensor. `data` is what reading them gave: the elements, or why they could
    /// not be read.
    pub fn tensor_data<D>(&self, name: &str, data: Result<D, String>) -> (result: Result<
        D,
        HuggingFaceLoadError,
    >)
        requires
            self.wf(),
        ensures
            if !self.tensors@.contains_key(name@) {
                result matches Err(error) && error.0@ == "missing checkpoint tensor: "@ + name@
            } else {
                match data {
                    Ok(elements) => result == Ok::<D, HuggingFaceLoadError>(elements),
                    Err(reason) => result matches Err(error) && error.0@ == name@ + ": "@ + reason@,
                }
            },
    {
        if !self.tensors.contains(name) {
            let mut message = text("missing checkpoint tensor: ");
            message.append(name);
            return Err(HuggingFaceLoadError(message));
        }
        match data {
            Ok(elements) => Ok(elements),
            Err(reason) => {
                let mut message = text(name);
                message.append(": ");
                message.append(reason.as_str());
                Err(HuggingFaceLoadError(message))
            },
        }
    }

    pub fn tensor_info(&self, name: &str) -> (info: Option<&TensorInfo>)
        requires
            self.wf(),
        ensures
            match info {
                Some(info) => self.tensors@.contains_key(name@) && *info == self.tensors@[name@],
                None => !self.tensors@.contains_key(name@),
            },
    {
        self.tensors.get(name)
    }

    /// Check that a tensor is there, of the given type and shape.
    pub fn validate_tensor(&self, name: &str, shape: &[usize], dtype: DType) -> (result: Result<
        (),
        HuggingFaceLoadError,
    >)
        requires
            self.wf(),
        ensures
            match (result, required_fault(self.tensors@, name@, shape@, dtype)) {
                (Ok(_), None) => true,
                (Err(error), Some(message)) => error.0@ == message,
                _ => false,
            },
    {
        match self.tensors.get(name) {
            None => {
                let mut message = text("missing checkpoint tensor: ");
                message.append(name);
                Err(HuggingFaceLoadError(message))
            },
            Some(info) => {
                if info.dtype != dtype || !equal_shapes(&info.shape, shape) {
                    let mut message = text(name);
                    message.append(": expected ");
                    message.append(dtype.as_str());
                    message.append(" ");
                    push_shape(&mut message, shape);
                    message.append(", found ");
                    message.append(info.dtype.as_str());
                    message.append(" ");
                    push_shape(&mut message, &info.shape);
                    return Err(HuggingFaceLoadError(message));
                }
                Ok(())
            },
        }
    }

    /// Check the tensors of a packed projection, and name them.
    ///
    /// `groups` is how many groups the compute library makes of the projection, or why it refuses
    /// the layout.
    pub fn load_linear(
        &self,
        prefix: &str,
        input_features: usize,
        output_features: usize,
        has_bias: bool,
        groups: &Result<usize, String>,
    ) -> (result: Result<AwqLinear, HuggingFaceLoadError>)
        requires
            self.wf(),
        ensures
            match (
                result,
                linear_fault(
                    self.quantization,
                    self.tensors@,
                    prefix@,
                    input_features,
                    output_features,
                    has_bias,
                    *groups,
                ),
            ) {
                (Ok(linear), None) => linear_names(linear, prefix@, has_bias) && linear.group_size
                    == self.quantization.group_of(input_features),
                (Err(error), Some(message)) => error.0@ == message,
                _ => false,
            },
    {
        let layout = match self.quantization.layout(input_features, output_features) {
            Ok(layout) => layout,
            Err(error) => {
                return Err(error);
            },
        };
        let groups: usize = match groups {
            Ok(groups) => *groups,
            Err(message) => {
                return Err(HuggingFaceLoadError(message.clone()));
            },
        };
        let qweight = name_under(prefix, "qweight");
        let qzeros = name_under(prefix, "qzeros");
        let scales = name_under(prefix, "scales");
        let bias = name_under(prefix, "bias");
        let blocks: usize = output_features / 8;
        let weight_shape = vec![input_features, blocks];
        let zero_shape = vec![groups, blocks];
        let scale_shape = vec![groups, output_features];
        let bias_shape = vec![output_features];
        proof {
            assert(weight_shape@ =~= seq![input_features, blocks]);
            assert(zero_shape@ =~= seq![groups, blocks]);
            assert(scale_shape@ =~= seq![groups, output_features]);
            assert(bias_shape@ =~= seq![output_features]);
        }
        match self.validate_tensor(qweight.as_str(), &weight_shape, DType::I32) {
            Ok(_) => {},
            Err(error) => {
                return Err(error);
            },
        }
        match self.validate_tensor(qzeros.as_str(), &zero_shape, DType::I32) {
            Ok(_) => {},
            Err(error) => {
                return Err(error);
            },
        }
        match self.validate_tensor(scales.as_str(), &scale_shape, DType::F16) {
            Ok(_) => {},
            Err(error) => {
                return Err(error);
            },
        }
        if has_bias {
            match self.validate_tensor(bias.as_str(), &bias_shape, DType::F16) {
                Ok(_) => {},
                Err(error) => {
                    return Err(error);
                },
            }
        } else if self.tensors.contains(bias.as_str()) {
            let mut message = text("unexpected bias: ");
            message.append(bias.as_str());
            return Err(HuggingFaceLoadError(message));
        }
        let weight = name_under(prefix, "weight");
        if self.tensors.contains(weight.as_str()) {
            let mut message = text("unexpected AWQ GEMM tensor: ");
            message.append(weight.as_str());
            return Err(HuggingFaceLoadError(message));
        }
        let order = name_under(prefix, "g_idx");
        if self.tensors.contains(order.as_str()) {
            let mut message = text("unexpected AWQ GEMM tensor: ");
            message.append(order.as_str());
            return Err(HuggingFaceLoadError(message));
        }
        Ok(
            AwqLinear {
                qweight,
                qzeros,
                scales,
                bias: if has_bias {
                    Some(bias)
                } else {
                    None
                },
                group_size: layout.group_size,
            },
        )
    }
}

} // verus!
